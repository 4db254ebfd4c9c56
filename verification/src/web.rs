//! What the pages say. Templates stay dumb: every displayed string is computed
//! here.

use vstd::prelude::*;

use crate::atp::{profile_in, profile_link, IdTable};
use crate::calendar::{
    date_text, day_text, fmt_day, fmt_human, fmt_rfc3339, machine_text, minute_text, seconds_between,
    seconds_from, Timestamp,
};
use crate::curated::Curated;
use crate::digest::{hex_digest, text_digest};
use crate::model::{
    counting, dated, ledger_sum, ledger_total, qualifiers_model, results_model, rows_model,
    slot_title, OfficialQualifier, Played, QualifierModel, RaceRow, ResultModel, RowModel,
    Snapshot, SnapshotModel, TournamentResult,
};
use crate::parser::{is_separator, points_of, ungrouped};
use crate::qualification::{selection_of, Provisional, SeatBasis, Selection, SelectionModel};
use crate::source::{
    a_parsed_snapshot_is_trustworthy, honest_qualifier, honest_row, snapshot_in,
    unplayed_carry_nothing,
};
use crate::text::{
    all_digits, append_int, append_number, chars_of, decimal, decimal_int, decimal_text,
    decimals_read_back, digit_char, is_digit, is_empty, join, joined, replace, replaced,
    same_text, string_of, string_opt, strings,
};

verus! {

/// Short enough that a refresh shows up promptly, long enough that a CDN
/// absorbs a traffic spike instead of the single machine.
pub const CACHE_PAGE: &'static str = "public, max-age=120, stale-while-revalidate=600";

/// The methodology page only changes when the code does.
pub const CACHE_STATIC: &'static str = "public, max-age=3600";

/// Safe to cache forever because the URL carries a content hash: a changed
/// stylesheet is a different URL.
pub const CACHE_IMMUTABLE: &'static str = "public, max-age=31536000, immutable";

/// Startup fails outright without a valid snapshot, so a running process is
/// always ready to serve.
pub const READY: &'static str = "ready\n";

pub const ROBOTS: &'static str = "User-agent: *\nAllow: /\nDisallow: /health/\n";

pub const APP_CSS: &'static str = "\
:root { color-scheme: light dark; --ink: #16202c; --muted: #5b6875; --line: #d6dde4; }
body { margin: 0 auto; max-width: 60rem; padding: 1rem; font: 16px/1.45 system-ui, sans-serif; color: var(--ink); }
table { width: 100%; border-collapse: collapse; font-variant-numeric: tabular-nums; }
th, td { padding: .35rem .5rem; border-bottom: 1px solid var(--line); text-align: left; }
tr.has-ledger > td { border-bottom: 0; }
tr.withdrawn { color: var(--muted); text-decoration: line-through; }
tr.cut td { border-bottom: 2px dashed var(--ink); }
li.sub { font-style: italic; }
li.absent, li.pending { color: var(--muted); }
.pos { color: #0a6b3d; }
.neg { color: #a3262a; }
.sr { position: absolute; width: 1px; height: 1px; overflow: hidden; clip-path: inset(50%); }
";

/// The version of a stylesheet: the first digits of its content hash.
pub open spec fn style_version(css: Seq<char>) -> Seq<char> {
    text_digest(css).take(12)
}

/// Content hash of a stylesheet, used to bust its cache.
pub fn version_of(css: &str) -> (r: String)
    ensures
        r@ == style_version(css@),
        r@.len() == 12,
{
    let hex = chars_of(hex_digest(css).as_str());
    assert(hex@.take(12) =~= hex@.subrange(0, 12));
    string_of(vstd::slice::slice_subrange(hex.as_slice(), 0, 12))
}

/// Content hash of the stylesheet, used to bust its cache. Markup and styles
/// ship together, so a cached-but-stale stylesheet renders new markup wrong —
/// versioning the URL makes that impossible.
pub fn css_version() -> (r: String)
    ensures
        r@ == style_version(APP_CSS@),
        r@.len() == 12,
{
    version_of(APP_CSS)
}

// ---------------------------------------------------------------------------
// Numbers and ages in words
// ---------------------------------------------------------------------------

/// `n` in base ten, with a comma before every third digit from the right.
pub open spec fn grouped(n: nat) -> Seq<char>
    decreases n,
{
    if n < 1000 {
        decimal(n)
    } else {
        grouped(n / 1000) + seq![
            ',',
            digit_char(n % 1000 / 100),
            digit_char(n % 100 / 10),
            digit_char(n % 10),
        ]
    }
}

pub fn thousands(n: u32) -> (r: String)
    ensures
        r@ == grouped(n as nat),
    decreases n,
{
    if n < 1000 {
        decimal_text(n as u64)
    } else {
        let mut out = thousands(n / 1000);
        let hundreds: u8 = (n % 1000 / 100) as u8;
        let tens: u8 = (n % 100 / 10) as u8;
        let ones: u8 = (n % 10) as u8;
        let ghost front = out@;
        out.push(',');
        out.push((48 + hundreds) as char);
        out.push((48 + tens) as char);
        out.push((48 + ones) as char);
        assert(out@ =~= front + seq![
            ',',
            digit_char(n as nat % 1000 / 100),
            digit_char(n as nat % 100 / 10),
            digit_char(n as nat % 10),
        ]);
        out
    }
}

/// A number as far from zero.
pub open spec fn distance(n: i64) -> int {
    if n < 0 {
        -n
    } else {
        n as int
    }
}

/// A difference of point totals, with its sign.
pub open spec fn signed_grouped(n: i64) -> Seq<char> {
    (if n >= 0 {
        "+"@
    } else {
        "-"@
    }) + grouped((distance(n) as u32) as nat)
}

pub fn signed_thousands(n: i64) -> (r: String)
    ensures
        r@ == signed_grouped(n),
{
    let far: u64 = if n < 0 {
        (-(n as i128)) as u64
    } else {
        n as u64
    };
    // Margins are differences of u32 point totals, so the cast is safe.
    let magnitude: u32 = #[verifier::truncate]
    (far as u32);
    let mut out = if n >= 0 {
        "+".to_string()
    } else {
        "-".to_string()
    };
    out.append(thousands(magnitude).as_str());
    out
}

/// An age in the largest unit that it has enough of.
pub open spec fn age_text(seconds: int) -> Seq<char> {
    if seconds < 0 {
        "0 s"@
    } else if seconds < 90 {
        decimal(seconds as nat) + " s"@
    } else if seconds < 90 * 60 {
        decimal((seconds / 60) as nat) + " min"@
    } else if seconds < 48 * 3600 {
        decimal((seconds / 3600) as nat) + " h"@
    } else {
        decimal((seconds / 86_400) as nat) + " days"@
    }
}

pub fn humanize_age(seconds: i64) -> (r: String)
    ensures
        r@ == age_text(seconds as int),
{
    if seconds < 0 {
        return "0 s".to_string();
    }
    let s: u64 = seconds as u64;
    if s < 90 {
        let mut out = decimal_text(s);
        out.append(" s");
        out
    } else if s < 90 * 60 {
        let mut out = decimal_text(s / 60);
        out.append(" min");
        out
    } else if s < 48 * 3600 {
        let mut out = decimal_text(s / 3600);
        out.append(" h");
        out
    } else {
        let mut out = decimal_text(s / 86_400);
        out.append(" days");
        out
    }
}

/// A count and what is counted.
pub open spec fn counted(n: u32, singular: Seq<char>) -> Seq<char> {
    if n == 1 {
        "1 "@ + singular
    } else {
        decimal(n as nat) + " "@ + singular + "s"@
    }
}

pub fn plural(n: u32, singular: &str) -> (r: String)
    ensures
        r@ == counted(n, singular@),
{
    if n == 1 {
        let mut out = "1 ".to_string();
        out.append(singular);
        out
    } else {
        let mut out = decimal_text(n as u64);
        out.append(" ");
        out.append(singular);
        out.append("s");
        out
    }
}

/// The address of an article.
pub open spec fn article_address(article: Seq<char>) -> Seq<char> {
    "https://en.wikipedia.org/wiki/"@ + replaced(article, " "@, "_"@)
}

pub fn wikipedia_url(article: &str) -> (r: String)
    ensures
        r@ == article_address(article@),
{
    let mut out = "https://en.wikipedia.org/wiki/".to_string();
    let chars = chars_of(article);
    out.append(string_of(replace(chars.as_slice(), " ", "_").as_slice()).as_str());
    out
}

// ---------------------------------------------------------------------------
// What is served
// ---------------------------------------------------------------------------

pub struct AppState {
    pub snapshot: Snapshot,
    /// Monotonic published-snapshot version from the store.
    pub version: i64,
    pub curated: Curated,
    pub selection: Selection,
    /// Seconds after which the source's own date reads stale.
    pub stale_after: u64,
    /// Seconds without a successful collection after which to warn.
    pub check_stale_after: u64,
    /// Public origin, used for canonical and shared-link metadata.
    pub base_url: String,
}

/// A row that can be displayed: its movement has a size, and its ledger a
/// total.
pub open spec fn servable_row(row: RowModel) -> bool {
    &&& row.movement != Some(i32::MIN)
    &&& ledger_sum(row.results) <= u32::MAX
}

/// A snapshot that can be displayed: its moments and dates exist, and each of
/// its rows can be.
pub open spec fn servable(s: SnapshotModel) -> bool {
    &&& s.source_as_of.valid()
    &&& s.generated_at.valid()
    &&& forall|i: int| 0 <= i < s.rows.len() ==> servable_row(#[trigger] s.rows[i])
    &&& dated(s)
}

/// Whether a snapshot can be displayed.
pub fn is_servable(snapshot: &Snapshot) -> (r: bool)
    ensures
        r == servable(snapshot@),
{
    if !snapshot.source_as_of.is_valid() || !snapshot.generated_at.is_valid() {
        return false;
    }
    let ghost s = snapshot@;
    let mut i: usize = 0;
    while i < snapshot.rows.len()
        invariant
            i <= snapshot.rows@.len(),
            s == snapshot@,
            s.rows.len() == snapshot.rows@.len(),
            forall|k: int| 0 <= k < i ==> servable_row(#[trigger] s.rows[k]),
        decreases snapshot.rows@.len() - i,
    {
        let row = &snapshot.rows[i];
        assert(s.rows[i as int] == row@);
        let sized = match row.movement {
            Some(m) => m != i32::MIN,
            None => true,
        };
        if !sized || ledger_total(&row.results).is_none() {
            return false;
        }
        i += 1;
    }
    let mut j: usize = 0;
    while j < snapshot.qualifiers.len()
        invariant
            j <= snapshot.qualifiers@.len(),
            s == snapshot@,
            s.qualifiers.len() == snapshot.qualifiers@.len(),
            forall|k: int| 0 <= k < j ==> (#[trigger] s.qualifiers[k]).qualified_on.valid(),
        decreases snapshot.qualifiers@.len() - j,
    {
        assert(s.qualifiers[j as int] == snapshot.qualifiers@[j as int]@);
        if !snapshot.qualifiers[j].qualified_on.is_valid() {
            return false;
        }
        j += 1;
    }
    true
}

impl AppState {
    pub open spec fn well_formed(&self) -> bool {
        servable(self.snapshot@)
    }
}

// ---------------------------------------------------------------------------
// Freshness
// ---------------------------------------------------------------------------

pub struct FreshView {
    pub accuracy_label: String,
    pub is_stale: bool,
    /// True when our own collection has not succeeded recently — a different
    /// problem from the source itself being old, and the one that means
    /// something is broken on our side.
    pub collection_stale: bool,
    pub checked_age: String,
    pub source_dt: String,
    pub source_human: String,
    pub generated_dt: String,
    pub generated_human: String,
    pub age: String,
    pub source: String,
    pub parser_version: String,
    pub ruleset: String,
    pub version: i64,
}

/// Seconds since the moment that the source's standings are current to.
pub open spec fn source_age(s: SnapshotModel, now: Timestamp) -> int {
    seconds_from(s.source_as_of, now)
}

/// Seconds since the snapshot was collected.
pub open spec fn checked_age(s: SnapshotModel, now: Timestamp) -> int {
    seconds_from(s.generated_at, now)
}

/// More than `limit` whole seconds have passed exactly when the time passed is
/// at least `limit + 1` seconds, to the nanosecond.
pub proof fn whole_seconds_exceed_a_limit(then: Timestamp, now: Timestamp, limit: nat)
    ensures
        seconds_from(then, now) > limit <==> now.instant() - then.instant() >= (limit + 1)
            * 1_000_000_000,
{
}

/// An age over a limit, the limit counted as a signed number of seconds.
pub open spec fn over(age: int, limit: u64) -> bool {
    age > limit as i64
}

fn is_over(age: i64, limit: u64) -> (r: bool)
    ensures
        r == over(age as int, limit),
{
    let limit: i64 = #[verifier::truncate]
    (limit as i64);
    age > limit
}

pub fn build_fresh(state: &AppState, now: &Timestamp) -> (r: FreshView)
    requires
        state.snapshot.source_as_of.valid(),
        state.snapshot.generated_at.valid(),
        now.valid(),
    ensures
        r.is_stale == over(source_age(state.snapshot@, *now), state.stale_after),
        r.collection_stale == over(checked_age(state.snapshot@, *now), state.check_stale_after),
        state.stale_after <= i64::MAX ==> r.is_stale == (seconds_from(
            state.snapshot.source_as_of,
            *now,
        ) > state.stale_after),
        state.stale_after <= i64::MAX ==> r.is_stale == (now.instant()
            - state.snapshot.source_as_of.instant() >= (state.stale_after + 1) * 1_000_000_000),
        state.check_stale_after <= i64::MAX ==> r.collection_stale == (seconds_from(
            state.snapshot.generated_at,
            *now,
        ) > state.check_stale_after),
        state.check_stale_after <= i64::MAX ==> r.collection_stale == (now.instant()
            - state.snapshot.generated_at.instant() >= (state.check_stale_after + 1)
            * 1_000_000_000),
        r.accuracy_label@ == (if r.is_stale {
            "stale — last known good"@
        } else {
            "official weekly"@
        }),
        r.age@ == age_text(source_age(state.snapshot@, *now)),
        r.checked_age@ == age_text(checked_age(state.snapshot@, *now)),
        r.source_dt@ == machine_text(state.snapshot.source_as_of),
        r.source_human@ == day_text(state.snapshot.source_as_of),
        r.generated_dt@ == machine_text(state.snapshot.generated_at),
        r.generated_human@ == minute_text(state.snapshot.generated_at),
        r.source@ == state.snapshot.source@,
        r.parser_version@ == state.snapshot.parser_version@,
        r.ruleset@ == state.curated.ruleset@,
        r.version == state.version,
{
    proof {
        whole_seconds_exceed_a_limit(
            state.snapshot.source_as_of,
            *now,
            state.stale_after as nat,
        );
        whole_seconds_exceed_a_limit(
            state.snapshot.generated_at,
            *now,
            state.check_stale_after as nat,
        );
    }
    let age_secs = seconds_between(now, &state.snapshot.source_as_of);
    let is_stale = is_over(age_secs, state.stale_after);
    let checked_secs = seconds_between(now, &state.snapshot.generated_at);
    let collection_stale = is_over(checked_secs, state.check_stale_after);
    FreshView {
        collection_stale,
        checked_age: humanize_age(checked_secs),
        // The source publishes weekly with a stated date, so the page never
        // claims to be live.
        accuracy_label: if is_stale {
            "stale — last known good".to_string()
        } else {
            "official weekly".to_string()
        },
        is_stale,
        source_dt: fmt_rfc3339(&state.snapshot.source_as_of),
        source_human: fmt_day(&state.snapshot.source_as_of),
        generated_dt: fmt_rfc3339(&state.snapshot.generated_at),
        generated_human: fmt_human(&state.snapshot.generated_at),
        age: humanize_age(age_secs),
        source: state.snapshot.source.clone(),
        parser_version: state.snapshot.parser_version.clone(),
        ruleset: state.curated.ruleset.clone(),
        version: state.version,
    }
}

/// What a monitor is told.
pub struct HealthReport {
    /// False when our collection has stopped succeeding.
    pub fresh: bool,
    pub body: String,
}

/// The lines of a health report after the first.
pub open spec fn health_lines(checked: int, source: int, version: int) -> Seq<char> {
    "checked_age_seconds="@ + decimal_int(checked) + "\nsource_age_seconds="@ + decimal_int(source)
        + "\nsnapshot_version="@ + decimal_int(version) + "\n"@
}

/// Monitoring hook: not fresh when our collection has stopped succeeding, so an
/// external cron can alarm on a plain HTTP status. Distinct from readiness —
/// serving an aged snapshot is intended behaviour, not an outage.
pub fn health_report(state: &AppState, now: &Timestamp) -> (r: HealthReport)
    requires
        state.snapshot.source_as_of.valid(),
        state.snapshot.generated_at.valid(),
        now.valid(),
    ensures
        r.fresh == !over(checked_age(state.snapshot@, *now), state.check_stale_after),
        state.check_stale_after <= i64::MAX ==> r.fresh == (seconds_from(
            state.snapshot.generated_at,
            *now,
        ) <= state.check_stale_after),
        state.check_stale_after <= i64::MAX ==> r.fresh == (now.instant()
            - state.snapshot.generated_at.instant() < (state.check_stale_after + 1)
            * 1_000_000_000),
        r.body@ == (if r.fresh {
            "fresh\n"@
        } else {
            "collection stale\n"@
        }) + health_lines(
            checked_age(state.snapshot@, *now),
            source_age(state.snapshot@, *now),
            state.version as int,
        ),
{
    proof {
        whole_seconds_exceed_a_limit(
            state.snapshot.generated_at,
            *now,
            state.check_stale_after as nat,
        );
    }
    let checked = seconds_between(now, &state.snapshot.generated_at);
    let source = seconds_between(now, &state.snapshot.source_as_of);
    let mut lines = "checked_age_seconds=".to_string();
    append_int(&mut lines, checked);
    lines.append("\nsource_age_seconds=");
    append_int(&mut lines, source);
    lines.append("\nsnapshot_version=");
    append_int(&mut lines, state.version);
    lines.append("\n");
    let fresh = !is_over(checked, state.check_stale_after);
    let mut body = if fresh {
        "fresh\n".to_string()
    } else {
        "collection stale\n".to_string()
    };
    body.append(lines.as_str());
    HealthReport { fresh, body }
}

// ---------------------------------------------------------------------------
// The summary
// ---------------------------------------------------------------------------

pub struct SummaryView {
    pub officials: String,
    pub top_seven: String,
    pub eighth: String,
    pub alternate: String,
    pub basis_sentence: String,
}

/// The name in the first row from `from` on that has the code, or the code.
pub open spec fn name_from(rows: Seq<RowModel>, code: Seq<char>, from: int) -> Seq<char>
    decreases rows.len() - from,
{
    if from >= rows.len() {
        code
    } else if rows[from].player_code == code {
        rows[from].player_name
    } else {
        name_from(rows, code, from + 1)
    }
}

/// The name that the table gives a code.
pub open spec fn name_of(rows: Seq<RowModel>, code: Seq<char>) -> Seq<char> {
    name_from(rows, code, 0)
}

fn find_name(rows: &Vec<RaceRow>, code: &str) -> (r: String)
    ensures
        r@ == name_of(rows_model(rows@), code@),
{
    let ghost all = rows_model(rows@);
    let mut i: usize = 0;
    while i < rows.len()
        invariant
            i <= rows@.len(),
            all == rows_model(rows@),
            name_from(all, code@, 0) == name_from(all, code@, i as int),
        decreases rows@.len() - i,
    {
        assert(all[i as int] == rows@[i as int]@);
        if same_text(rows[i].player_code.as_str(), code) {
            return rows[i].player_name.clone();
        }
        i += 1;
    }
    code.to_string()
}

/// An announced qualification: the name and the date.
pub open spec fn official_text(rows: Seq<RowModel>, q: QualifierModel) -> Seq<char> {
    name_of(rows, q.player_code) + " ("@ + date_text(q.qualified_on) + ")"@
}

/// The announced qualifications.
pub open spec fn officials_text(s: SnapshotModel) -> Seq<char> {
    if s.qualifiers.len() == 0 {
        "None announced yet"@
    } else {
        joined(s.qualifiers.map_values(|q: QualifierModel| official_text(s.rows, q)), ", "@)
    }
}

fn list_officials(snapshot: &Snapshot) -> (r: String)
    requires
        dated(snapshot@),
    ensures
        r@ == officials_text(snapshot@),
{
    let ghost all = snapshot@.qualifiers;
    assert(all.len() == snapshot.qualifiers@.len());
    if snapshot.qualifiers.len() == 0 {
        return "None announced yet".to_string();
    }
    let mut parts: Vec<String> = Vec::new();
    let mut i: usize = 0;
    while i < snapshot.qualifiers.len()
        invariant
            i <= snapshot.qualifiers@.len(),
            dated(snapshot@),
            all == snapshot@.qualifiers,
            all.len() == snapshot.qualifiers@.len(),
            parts@.len() == i,
            forall|k: int|
                0 <= k < i ==> (#[trigger] parts@[k])@ == official_text(snapshot@.rows, all[k]),
        decreases snapshot.qualifiers@.len() - i,
    {
        let q = &snapshot.qualifiers[i];
        assert(all[i as int] == q@);
        let mut s = find_name(&snapshot.rows, q.player_code.as_str());
        s.append(" (");
        s.append(q.qualified_on.to_text().as_str());
        s.append(")");
        parts.push(s);
        i += 1;
    }
    assert(strings(parts@) =~= all.map_values(
        |q: QualifierModel| official_text(snapshot@.rows, q),
    ));
    join(&parts, ", ")
}

/// The names of the rows whose players hold one of the first seven seats, in
/// the order of the rows.
pub open spec fn top_seven_names(rows: Seq<RowModel>, selection: SelectionModel) -> Seq<Seq<char>>
    decreases rows.len(),
{
    if rows.len() == 0 {
        seq![]
    } else if selection.state(rows.last().player_code) == Provisional::TopSeven {
        top_seven_names(rows.drop_last(), selection).push(rows.last().player_name)
    } else {
        top_seven_names(rows.drop_last(), selection)
    }
}

fn list_top_seven(rows: &Vec<RaceRow>, selection: &Selection) -> (r: String)
    ensures
        r@ == joined(top_seven_names(rows_model(rows@), selection@), ", "@),
{
    let ghost all = rows_model(rows@);
    let mut names: Vec<String> = Vec::new();
    let mut i: usize = 0;
    assert(strings(names@) =~= seq![]);
    while i < rows.len()
        invariant
            i <= rows@.len(),
            all == rows_model(rows@),
            strings(names@) == top_seven_names(all.take(i as int), selection@),
        decreases rows@.len() - i,
    {
        let ghost done = names@;
        assert(all.take(i + 1).drop_last() =~= all.take(i as int));
        assert(all.take(i + 1).last() == rows@[i as int]@);
        if selection.state(rows[i].player_code.as_str()) == Provisional::TopSeven {
            names.push(rows[i].player_name.clone());
            assert(strings(names@) =~= strings(done).push(rows@[i as int].player_name@));
        }
        i += 1;
    }
    assert(all.take(i as int) =~= all);
    join(&names, ", ")
}

/// Who holds seat 8 and why.
pub open spec fn eighth_text(rows: Seq<RowModel>, selection: SelectionModel) -> Seq<char> {
    match selection.eighth_code {
        Some(code) => name_of(rows, code) + (match selection.eighth_basis {
            SeatBasis::GrandSlamChampion => " — Grand Slam champion provision"@,
            SeatBasis::RaceRank => " — by race rank"@,
        }),
        None => "—"@,
    }
}

/// The rule behind seat 8, in a sentence.
pub open spec fn basis_text(rows: Seq<RowModel>, selection: SelectionModel, season: u16) -> Seq<
    char,
> {
    match selection.eighth_code {
        Some(code) => match selection.eighth_basis {
            SeatBasis::GrandSlamChampion => "Seat 8 goes to "@ + name_of(rows, code) + " as a "@
                + decimal(season as nat)
                + " Grand Slam champion ranked 8–20, not to the player ranked 8 in the race. There is no ordinary 8/9 cutoff this week, so points margins to a single line are not shown."@,
            SeatBasis::RaceRank => "Seat 8 goes to "@ + name_of(rows, code)
                + " by race rank: no eligible "@ + decimal(season as nat)
                + " Grand Slam champion is ranked 8–20, so the ordinary 8/9 cutoff applies."@,
        },
        None => ""@,
    }
}

/// The name that the table gives a code, or a dash where there is none.
pub open spec fn name_or_dash(rows: Seq<RowModel>, code: Option<Seq<char>>) -> Seq<char> {
    match code {
        Some(c) => name_of(rows, c),
        None => "—"@,
    }
}

fn find_name_or_dash(rows: &Vec<RaceRow>, code: &Option<String>) -> (r: String)
    ensures
        r@ == name_or_dash(rows_model(rows@), string_opt(*code)),
{
    match code {
        Some(c) => find_name(rows, c.as_str()),
        None => "—".to_string(),
    }
}

pub fn build_summary(state: &AppState) -> (r: SummaryView)
    requires
        dated(state.snapshot@),
    ensures
        r.officials@ == officials_text(state.snapshot@),
        r.top_seven@ == joined(
            top_seven_names(state.snapshot@.rows, state.selection@),
            ", "@,
        ),
        r.eighth@ == eighth_text(state.snapshot@.rows, state.selection@),
        r.basis_sentence@ == basis_text(
            state.snapshot@.rows,
            state.selection@,
            state.curated.season,
        ),
        r.alternate@ == name_or_dash(state.snapshot@.rows, state.selection@.alternate_code),
{
    let rows = &state.snapshot.rows;
    // Officially announced qualifications, ingested with the source that
    // announced each one. Never inferred from points.
    let officials = list_officials(&state.snapshot);
    // Rows are already in rank order (validated), so filtering preserves it.
    let top_seven = list_top_seven(rows, &state.selection);
    let season = state.curated.season as u64;
    let (eighth, basis_sentence) = match &state.selection.eighth_code {
        Some(code) => {
            let name = find_name(rows, code.as_str());
            let mut eighth = name.clone();
            let mut sentence = "Seat 8 goes to ".to_string();
            sentence.append(name.as_str());
            match state.selection.eighth_basis {
                SeatBasis::GrandSlamChampion => {
                    eighth.append(" — Grand Slam champion provision");
                    sentence.append(" as a ");
                    append_number(&mut sentence, season);
                    sentence.append(
                        " Grand Slam champion ranked 8–20, not to the player ranked 8 in the race. There is no ordinary 8/9 cutoff this week, so points margins to a single line are not shown.",
                    );
                },
                SeatBasis::RaceRank => {
                    eighth.append(" — by race rank");
                    sentence.append(" by race rank: no eligible ");
                    append_number(&mut sentence, season);
                    sentence.append(
                        " Grand Slam champion is ranked 8–20, so the ordinary 8/9 cutoff applies.",
                    );
                },
            }
            (eighth, sentence)
        },
        None => {
            proof {
                reveal_strlit("");
            }
            ("—".to_string(), String::new())
        },
    };
    let alternate = find_name_or_dash(rows, &state.selection.alternate_code);
    SummaryView { officials, top_seven, eighth, alternate, basis_sentence }
}

/// The text that someone sees when the link is shared.
pub open spec fn preview_text(
    s: SnapshotModel,
    selection: SelectionModel,
    season: u16,
    alternate: Seq<char>,
) -> Seq<char> {
    "Who would qualify for the "@ + decimal(season as nat)
        + " ATP Finals in Turin if selection happened now. Seat 8: "@ + name_or_dash(
        s.rows,
        selection.eighth_code,
    ) + ". First alternate: "@ + alternate + ". Standings as of "@ + day_text(s.source_as_of)
        + "."@
}

/// One sentence naming who is in and who is closest out — the text someone sees
/// when the link is shared, so it should carry the actual news.
pub fn shared_link_text(state: &AppState, summary: &SummaryView) -> (r: String)
    requires
        state.snapshot.source_as_of.valid(),
    ensures
        r@ == preview_text(
            state.snapshot@,
            state.selection@,
            state.curated.season,
            summary.alternate@,
        ),
{
    let cut = find_name_or_dash(&state.snapshot.rows, &state.selection.eighth_code);
    let mut s = "Who would qualify for the ".to_string();
    append_number(&mut s, state.curated.season as u64);
    s.append(" ATP Finals in Turin if selection happened now. Seat 8: ");
    s.append(cut.as_str());
    s.append(". First alternate: ");
    s.append(summary.alternate.as_str());
    s.append(". Standings as of ");
    s.append(fmt_day(&state.snapshot.source_as_of).as_str());
    s.append(".");
    s
}

// ---------------------------------------------------------------------------
// The breakdown behind a total
// ---------------------------------------------------------------------------

/// One line of a player's points breakdown.
pub struct ResultView {
    /// The event played, or the mandatory event that was not.
    pub event: String,
    /// Wikipedia article for the draw, so a reader can check the number.
    pub event_url: Option<String>,
    /// Visible qualifier after the event name: "for Miami" on a substitution.
    pub qualifier: String,
    pub round: String,
    pub points: String,
    /// Spoken in place of a symbol that is not self-explanatory.
    pub sr_note: String,
    pub class: String,
}

/// What a `ResultView` says.
pub struct LineModel {
    pub event: Seq<char>,
    pub event_url: Option<Seq<char>>,
    pub qualifier: Seq<char>,
    pub round: Seq<char>,
    pub points: Seq<char>,
    pub sr_note: Seq<char>,
    pub class: Seq<char>,
}

impl View for ResultView {
    type V = LineModel;

    open spec fn view(&self) -> LineModel {
        LineModel {
            event: self.event@,
            event_url: string_opt(self.event_url),
            qualifier: self.qualifier@,
            round: self.round@,
            points: self.points@,
            sr_note: self.sr_note@,
            class: self.class@,
        }
    }
}

/// What a list of lines says.
pub open spec fn lines_model(lines: Seq<ResultView>) -> Seq<LineModel> {
    lines.map_values(|l: ResultView| l@)
}

pub struct LedgerGroup {
    pub title: String,
    pub results: Vec<ResultView>,
}

/// What a `LedgerGroup` says.
pub struct GroupModel {
    pub title: Seq<char>,
    pub results: Seq<LineModel>,
}

impl View for LedgerGroup {
    type V = GroupModel;

    open spec fn view(&self) -> GroupModel {
        GroupModel { title: self.title@, results: lines_model(self.results@) }
    }
}

/// What a list of groups says.
pub open spec fn groups_model(groups: Seq<LedgerGroup>) -> Seq<GroupModel> {
    groups.map_values(|g: LedgerGroup| g@)
}

pub struct LedgerView {
    /// "15 of 19 tournaments count · 1 title"
    pub headline: String,
    /// Names the player: a screen reader meets twelve of these summaries.
    pub sr_intro: String,
    pub groups: Vec<LedgerGroup>,
    pub total: String,
    /// Set only when some result stands in for a mandatory Masters 1000.
    pub substitution_note: String,
}

/// What a `LedgerView` says.
pub struct LedgerModel {
    pub headline: Seq<char>,
    pub sr_intro: Seq<char>,
    pub groups: Seq<GroupModel>,
    pub total: Seq<char>,
    pub substitution_note: Seq<char>,
}

impl View for LedgerView {
    type V = LedgerModel;

    open spec fn view(&self) -> LedgerModel {
        LedgerModel {
            headline: self.headline@,
            sr_intro: self.sr_intro@,
            groups: groups_model(self.groups@),
            total: self.total@,
            substitution_note: self.substitution_note@,
        }
    }
}

/// What an optional breakdown says.
pub open spec fn ledger_opt(ledger: Option<LedgerView>) -> Option<LedgerModel> {
    match ledger {
        Some(l) => Some(l@),
        None => None,
    }
}

/// The line for a result. A mandatory column's label is the name the reader
/// knows — "Indian Wells", not "BNP Paribas Open" — so it is preferred. On a
/// substitution it names the event *replaced*, so the event played is named
/// instead, with the slot as a qualifier. A mandatory event that has happened
/// and was skipped scores zero; one that has not happened yet scores nothing.
pub open spec fn result_line(r: ResultModel) -> LineModel {
    match r.played {
        Played::Result => LineModel {
            event: if !r.substituted && r.slot_label.len() > 0 {
                r.slot_label
            } else {
                r.event_name
            },
            event_url: Some(article_address(r.event_code)),
            qualifier: if r.substituted && r.slot_label.len() > 0 {
                "for "@ + r.slot_label
            } else {
                seq![]
            },
            round: r.round,
            points: grouped(r.points as nat),
            sr_note: seq![],
            class: if r.substituted {
                "sub"@
            } else {
                seq![]
            },
        },
        Played::Absent => LineModel {
            event: r.slot_label,
            event_url: None,
            qualifier: seq![],
            round: "A"@,
            points: "0"@,
            sr_note: "did not play"@,
            class: "absent"@,
        },
        Played::Pending => LineModel {
            event: r.slot_label,
            event_url: None,
            qualifier: seq![],
            round: "–"@,
            points: "–"@,
            sr_note: "not played yet"@,
            class: "pending"@,
        },
    }
}

/// The groups with one more line: in the last group if that has the line's
/// title, else in a group of its own.
pub open spec fn with_line(groups: Seq<GroupModel>, title: Seq<char>, line: LineModel) -> Seq<
    GroupModel,
> {
    if groups.len() > 0 && groups.last().title == title {
        groups.drop_last().push(
            GroupModel { title: groups.last().title, results: groups.last().results.push(line) },
        )
    } else {
        groups.push(GroupModel { title, results: seq![line] })
    }
}

/// The lines of a ledger, in the source's order, grouped by block.
pub open spec fn line_groups(results: Seq<ResultModel>) -> Seq<GroupModel>
    decreases results.len(),
{
    if results.len() == 0 {
        seq![]
    } else {
        with_line(
            line_groups(results.drop_last()),
            slot_title(results.last().slot),
            result_line(results.last()),
        )
    }
}

/// How much of the season the breakdown accounts for. Only a player's best
/// results count, so the ledger is routinely shorter than the season they
/// played.
pub open spec fn headline_text(row: RowModel) -> Seq<char> {
    let n = counting(row.results) as u32;
    (match row.tournaments_played {
        Some(played) => if played >= n {
            decimal(n as nat) + " of "@ + decimal(played as nat) + " tournaments count"@
        } else {
            counted(n, "counting result"@)
        },
        None => counted(n, "counting result"@),
    }) + (match row.titles {
        Some(titles) => " · "@ + (if titles == 0 {
            "no titles"@
        } else {
            counted(titles, "title"@)
        }),
        None => seq![],
    })
}

/// Some result of the ledger stands in for a mandatory event.
pub open spec fn any_substituted(results: Seq<ResultModel>) -> bool {
    exists|i: int| 0 <= i < results.len() && (#[trigger] results[i]).substituted
}

/// The breakdown of a row; a row without a ledger has none.
pub open spec fn ledger_of(row: RowModel) -> Option<LedgerModel> {
    if row.results.len() == 0 {
        None
    } else {
        Some(
            LedgerModel {
                headline: headline_text(row),
                sr_intro: "Points breakdown for "@ + row.player_name + ": "@,
                groups: line_groups(row.results),
                total: grouped(ledger_sum(row.results)),
                substitution_note: if any_substituted(row.results) {
                    "Italicised results were counted in place of a mandatory Masters 1000, which the rulebook allows for up to three of them."@
                } else {
                    seq![]
                },
            },
        )
    }
}

fn build_line(result: &TournamentResult) -> (r: ResultView)
    ensures
        r@ == result_line(result@),
{
    match result.played {
        Played::Result => {
            let labelled = !is_empty(result.slot_label.as_str());
            ResultView {
                event: if !result.substituted && labelled {
                    result.slot_label.clone()
                } else {
                    result.event_name.clone()
                },
                event_url: Some(wikipedia_url(result.event_code.as_str())),
                qualifier: if result.substituted && labelled {
                    let mut s = "for ".to_string();
                    s.append(result.slot_label.as_str());
                    s
                } else {
                    String::new()
                },
                round: result.round.clone(),
                points: thousands(result.points),
                sr_note: String::new(),
                class: if result.substituted {
                    "sub".to_string()
                } else {
                    String::new()
                },
            }
        },
        Played::Absent => ResultView {
            event: result.slot_label.clone(),
            event_url: None,
            qualifier: String::new(),
            round: "A".to_string(),
            points: "0".to_string(),
            sr_note: "did not play".to_string(),
            class: "absent".to_string(),
        },
        Played::Pending => ResultView {
            event: result.slot_label.clone(),
            event_url: None,
            qualifier: String::new(),
            round: "–".to_string(),
            points: "–".to_string(),
            sr_note: "not played yet".to_string(),
            class: "pending".to_string(),
        },
    }
}

fn build_groups(results: &Vec<TournamentResult>) -> (r: Vec<LedgerGroup>)
    ensures
        groups_model(r@) == line_groups(results_model(results@)),
{
    let ghost all = results_model(results@);
    let mut groups: Vec<LedgerGroup> = Vec::new();
    let mut i: usize = 0;
    assert(groups_model(groups@) =~= line_groups(all.take(0)));
    while i < results.len()
        invariant
            i <= results@.len(),
            all == results_model(results@),
            groups_model(groups@) == line_groups(all.take(i as int)),
        decreases results@.len() - i,
    {
        let ghost done = groups_model(groups@);
        assert(all.take(i + 1).drop_last() =~= all.take(i as int));
        assert(all.take(i + 1).last() == results@[i as int]@);
        let line = build_line(&results[i]);
        let ghost added = line@;
        let title = results[i].slot.title();
        match groups.pop() {
            Some(last) => {
                let mut last = last;
                assert(groups_model(groups@) =~= done.drop_last());
                assert(done.last() == last@);
                if same_text(last.title.as_str(), title) {
                    let ghost old_lines = lines_model(last.results@);
                    last.results.push(line);
                    assert(lines_model(last.results@) =~= old_lines.push(added));
                    groups.push(last);
                } else {
                    groups.push(last);
                    let mut lines: Vec<ResultView> = Vec::new();
                    lines.push(line);
                    assert(lines_model(lines@) =~= seq![added]);
                    groups.push(LedgerGroup { title: title.to_string(), results: lines });
                }
            },
            None => {
                let mut lines: Vec<ResultView> = Vec::new();
                lines.push(line);
                assert(lines_model(lines@) =~= seq![added]);
                groups.push(LedgerGroup { title: title.to_string(), results: lines });
            },
        }
        assert(groups_model(groups@) =~= with_line(done, title@, added));
        i += 1;
    }
    assert(all.take(i as int) =~= all);
    groups
}

fn build_headline(row: &RaceRow) -> (r: String)
    ensures
        r@ == headline_text(row@),
{
    let counting: u32 = #[verifier::truncate]
    (row.counting_results() as u32);
    let mut headline = match row.tournaments_played {
        Some(played) => if played >= counting {
            let mut s = decimal_text(counting as u64);
            s.append(" of ");
            append_number(&mut s, played as u64);
            s.append(" tournaments count");
            s
        } else {
            plural(counting, "counting result")
        },
        None => plural(counting, "counting result"),
    };
    match row.titles {
        Some(titles) => {
            let mut tail = " · ".to_string();
            if titles == 0 {
                tail.append("no titles");
            } else {
                tail.append(plural(titles, "title").as_str());
            }
            headline.append(tail.as_str());
        },
        None => {},
    }
    assert(headline@ =~= headline_text(row@));
    headline
}

fn has_substitution(results: &Vec<TournamentResult>) -> (r: bool)
    ensures
        r == any_substituted(results_model(results@)),
{
    let ghost all = results_model(results@);
    let mut i: usize = 0;
    while i < results.len()
        invariant
            i <= results@.len(),
            all == results_model(results@),
            forall|k: int| 0 <= k < i ==> !(#[trigger] all[k]).substituted,
        decreases results@.len() - i,
    {
        assert(all[i as int] == results@[i as int]@);
        if results[i].substituted {
            return true;
        }
        i += 1;
    }
    false
}

/// The expandable per-player breakdown. Returns None when the row carries no
/// ledger, which is how a breakdown that failed to reconcile is suppressed.
pub fn build_ledger(row: &RaceRow) -> (r: Option<LedgerView>)
    requires
        ledger_sum(row@.results) <= u32::MAX,
    ensures
        ledger_opt(r) == ledger_of(row@),
{
    assert(row@.results.len() == row.results@.len());
    if row.results.len() == 0 {
        return None;
    }
    let headline = build_headline(row);
    let mut sr_intro = "Points breakdown for ".to_string();
    sr_intro.append(row.player_name.as_str());
    sr_intro.append(": ");
    Some(
        LedgerView {
            headline,
            sr_intro,
            groups: build_groups(&row.results),
            // Equal to the row's total by construction — a ledger is only kept
            // when it reconciles — so showing it lets a reader add up and
            // check.
            total: thousands(row.ledger_points()),
            substitution_note: if has_substitution(&row.results) {
                "Italicised results were counted in place of a mandatory Masters 1000, which the rulebook allows for up to three of them.".to_string()
            } else {
                String::new()
            },
        },
    )
}

// ---------------------------------------------------------------------------
// The table
// ---------------------------------------------------------------------------

pub struct RowView {
    pub rank: u32,
    pub movement: String,
    pub movement_class: String,
    pub movement_sr: String,
    pub name: String,
    /// ATP profile, when Wikidata gives us an id for this player; `None`
    /// renders the name unlinked.
    pub profile_url: Option<String>,
    pub country: String,
    pub official: bool,
    pub status_label: String,
    pub status_class: String,
    pub points: String,
    pub margin: String,
    pub margin_class: String,
    pub row_class: String,
    /// The per-tournament breakdown, absent when the source's cells did not
    /// reconcile against this row's total.
    pub ledger: Option<LedgerView>,
    pub cut_strong_after: bool,
    pub cut_ordinary_after: bool,
}

/// What a `RowView` says.
pub struct RowViewModel {
    pub rank: u32,
    pub movement: Seq<char>,
    pub movement_class: Seq<char>,
    pub movement_sr: Seq<char>,
    pub name: Seq<char>,
    pub profile_url: Option<Seq<char>>,
    pub country: Seq<char>,
    pub official: bool,
    pub status_label: Seq<char>,
    pub status_class: Seq<char>,
    pub points: Seq<char>,
    pub margin: Seq<char>,
    pub margin_class: Seq<char>,
    pub row_class: Seq<char>,
    pub ledger: Option<LedgerModel>,
    pub cut_strong_after: bool,
    pub cut_ordinary_after: bool,
}

impl View for RowView {
    type V = RowViewModel;

    open spec fn view(&self) -> RowViewModel {
        RowViewModel {
            rank: self.rank,
            movement: self.movement@,
            movement_class: self.movement_class@,
            movement_sr: self.movement_sr@,
            name: self.name@,
            profile_url: string_opt(self.profile_url),
            country: self.country@,
            official: self.official,
            status_label: self.status_label@,
            status_class: self.status_class@,
            points: self.points@,
            margin: self.margin@,
            margin_class: self.margin_class@,
            row_class: self.row_class@,
            ledger: ledger_opt(self.ledger),
            cut_strong_after: self.cut_strong_after,
            cut_ordinary_after: self.cut_ordinary_after,
        }
    }
}

/// What a list of row views says.
pub open spec fn row_views_model(rows: Seq<RowView>) -> Seq<RowViewModel> {
    rows.map_values(|r: RowView| r@)
}

/// Places gained or lost: the symbol shown, its class, and what is spoken.
pub open spec fn movement_view(movement: Option<i32>) -> (Seq<char>, Seq<char>, Seq<char>) {
    match movement {
        Some(m) => if m > 0 {
            ("▲"@ + decimal(m as nat), "up"@, "up "@ + decimal(m as nat) + " places"@)
        } else if m < 0 {
            ("▼"@ + decimal((-m) as nat), "down"@, "down "@ + decimal((-m) as nat) + " places"@)
        } else {
            ("·"@, "flat"@, "no change since last update"@)
        },
        None => ("–"@, "flat"@, "no previous snapshot"@),
    }
}

fn build_movement(movement: Option<i32>) -> (r: (String, String, String))
    requires
        movement != Some(i32::MIN),
    ensures
        (r.0@, r.1@, r.2@) == movement_view(movement),
{
    match movement {
        Some(m) => if m > 0 {
            let mut shown = "▲".to_string();
            append_number(&mut shown, m as u64);
            let mut spoken = "up ".to_string();
            append_number(&mut spoken, m as u64);
            spoken.append(" places");
            (shown, "up".to_string(), spoken)
        } else if m < 0 {
            let n: i32 = -m;
            let mut shown = "▼".to_string();
            append_number(&mut shown, n as u64);
            let mut spoken = "down ".to_string();
            append_number(&mut spoken, n as u64);
            spoken.append(" places");
            (shown, "down".to_string(), spoken)
        } else {
            ("·".to_string(), "flat".to_string(), "no change since last update".to_string())
        },
        None => ("–".to_string(), "flat".to_string(), "no previous snapshot".to_string()),
    }
}

/// A seat in words, and its class.
pub open spec fn status_view(seat: Provisional, slam: bool) -> (Seq<char>, Seq<char>) {
    match seat {
        Provisional::TopSeven => ("Top 7"@, "in"@),
        Provisional::Eighth => if slam {
            ("8th seat · Slam rule"@, "slam"@)
        } else {
            ("8th seat"@, "in"@)
        },
        Provisional::FirstAlternate => ("First alternate"@, "alt"@),
        Provisional::Withdrawn => ("Withdrawn"@, "out"@),
        Provisional::NotSelected => (seq![], seq![]),
    }
}

fn build_status(seat: Provisional, slam: bool) -> (r: (String, String))
    ensures
        (r.0@, r.1@) == status_view(seat, slam),
{
    match seat {
        Provisional::TopSeven => ("Top 7".to_string(), "in".to_string()),
        Provisional::Eighth => if slam {
            ("8th seat · Slam rule".to_string(), "slam".to_string())
        } else {
            ("8th seat".to_string(), "in".to_string())
        },
        Provisional::FirstAlternate => ("First alternate".to_string(), "alt".to_string()),
        Provisional::Withdrawn => ("Withdrawn".to_string(), "out".to_string()),
        Provisional::NotSelected => (String::new(), String::new()),
    }
}

/// A margin in words, and its class.
pub open spec fn margin_view(margin: Option<i64>) -> (Seq<char>, Seq<char>) {
    match margin {
        Some(m) => (
            signed_grouped(m),
            if m >= 0 {
                "pos"@
            } else {
                "neg"@
            },
        ),
        None => ("–"@, seq![]),
    }
}

fn build_margin(margin: Option<i64>) -> (r: (String, String))
    ensures
        (r.0@, r.1@) == margin_view(margin),
{
    match margin {
        Some(m) => (
            signed_thousands(m),
            if m >= 0 {
                "pos".to_string()
            } else {
                "neg".to_string()
            },
        ),
        None => ("–".to_string(), String::new()),
    }
}

/// The classes of a table row. A breakdown renders as its own row directly
/// beneath, so the pair needs one closing border, not two.
pub open spec fn row_classes(has_ledger: bool, seat: Provisional, slam: bool) -> Seq<Seq<char>> {
    let base = if has_ledger {
        seq!["has-ledger"@]
    } else {
        seq![]
    };
    match seat {
        Provisional::TopSeven => base.push("selected"@),
        Provisional::Eighth => if slam {
            base.push("selected"@).push("slam-pick"@)
        } else {
            base.push("selected"@)
        },
        Provisional::FirstAlternate => base.push("alternate"@),
        Provisional::Withdrawn => base.push("withdrawn"@),
        Provisional::NotSelected => base,
    }
}

fn build_classes(has_ledger: bool, seat: Provisional, slam: bool) -> (r: String)
    ensures
        r@ == joined(row_classes(has_ledger, seat, slam), " "@),
{
    let mut classes: Vec<String> = Vec::new();
    if has_ledger {
        classes.push("has-ledger".to_string());
    }
    match seat {
        Provisional::TopSeven => classes.push("selected".to_string()),
        Provisional::Eighth => {
            classes.push("selected".to_string());
            if slam {
                classes.push("slam-pick".to_string());
            }
        },
        Provisional::FirstAlternate => classes.push("alternate".to_string()),
        Provisional::Withdrawn => classes.push("withdrawn".to_string()),
        Provisional::NotSelected => {},
    }
    assert(strings(classes@) =~= row_classes(has_ledger, seat, slam));
    join(&classes, " ")
}

/// A qualification of the player has been announced.
pub open spec fn announced(qualifiers: Seq<QualifierModel>, code: Seq<char>) -> bool {
    exists|i: int| 0 <= i < qualifiers.len() && (#[trigger] qualifiers[i]).player_code == code
}

fn is_announced(qualifiers: &Vec<OfficialQualifier>, code: &str) -> (r: bool)
    ensures
        r == announced(qualifiers_model(qualifiers@), code@),
{
    let ghost all = qualifiers_model(qualifiers@);
    let mut i: usize = 0;
    while i < qualifiers.len()
        invariant
            i <= qualifiers@.len(),
            all == qualifiers_model(qualifiers@),
            forall|k: int| 0 <= k < i ==> (#[trigger] all[k]).player_code != code@,
        decreases qualifiers@.len() - i,
    {
        assert(all[i as int] == qualifiers@[i as int]@);
        if same_text(qualifiers[i].player_code.as_str(), code) {
            return true;
        }
        i += 1;
    }
    false
}

/// The first seven rows are the first seven seats, and the table goes on.
pub open spec fn contiguous(rows: Seq<RowModel>, selection: SelectionModel) -> bool {
    &&& rows.len() > 7
    &&& forall|i: int|
        0 <= i < 7 ==> selection.state((#[trigger] rows[i]).player_code) == Provisional::TopSeven
}

/// The row under which the strong line is drawn: the seventh, unless
/// withdrawals have made the displayed order non-contiguous.
pub open spec fn strong_cut(rows: Seq<RowModel>, selection: SelectionModel, i: int) -> bool {
    i == 6 && contiguous(rows, selection)
}

/// The row under which the ordinary line between the eighth and the ninth is
/// drawn: the eighth, when it holds seat 8 by race rank.
pub open spec fn ordinary_cut(rows: Seq<RowModel>, selection: SelectionModel, i: int) -> bool {
    &&& i == 7
    &&& contiguous(rows, selection)
    &&& selection.eighth_basis != SeatBasis::GrandSlamChampion
    &&& selection.state(rows[7].player_code) == Provisional::Eighth
}

/// How the `i`-th row of a table is displayed.
pub open spec fn row_view(
    s: SnapshotModel,
    selection: SelectionModel,
    ids: Map<Seq<char>, Seq<char>>,
    i: int,
) -> RowViewModel {
    let row = s.rows[i];
    let slam = selection.eighth_basis == SeatBasis::GrandSlamChampion;
    let seat = selection.state(row.player_code);
    let movement = movement_view(row.movement);
    let status = status_view(seat, slam);
    let margin = margin_view(selection.margin(row.player_code));
    RowViewModel {
        rank: row.rank,
        movement: movement.0,
        movement_class: movement.1,
        movement_sr: movement.2,
        name: row.player_name,
        profile_url: profile_link(ids, row.player_code),
        country: row.country,
        official: announced(s.qualifiers, row.player_code),
        status_label: status.0,
        status_class: status.1,
        points: grouped(row.race_points as nat),
        margin: margin.0,
        margin_class: margin.1,
        row_class: joined(row_classes(ledger_of(row) is Some, seat, slam), " "@),
        ledger: ledger_of(row),
        cut_strong_after: strong_cut(s.rows, selection, i),
        cut_ordinary_after: ordinary_cut(s.rows, selection, i),
    }
}

/// How a table is displayed.
pub open spec fn table_view(
    s: SnapshotModel,
    selection: SelectionModel,
    ids: Map<Seq<char>, Seq<char>>,
) -> Seq<RowViewModel> {
    Seq::new(s.rows.len(), |i: int| row_view(s, selection, ids, i))
}

fn is_contiguous(rows: &Vec<RaceRow>, selection: &Selection) -> (r: bool)
    ensures
        r == contiguous(rows_model(rows@), selection@),
{
    let ghost all = rows_model(rows@);
    if rows.len() <= 7 {
        return false;
    }
    let mut i: usize = 0;
    while i < 7
        invariant
            i <= 7,
            rows@.len() > 7,
            all == rows_model(rows@),
            forall|k: int|
                0 <= k < i ==> selection@.state((#[trigger] all[k]).player_code)
                    == Provisional::TopSeven,
        decreases 7 - i,
    {
        assert(all[i as int] == rows@[i as int]@);
        if selection.state(rows[i].player_code.as_str()) != Provisional::TopSeven {
            return false;
        }
        i += 1;
    }
    true
}

fn build_row(state: &AppState, ids: &IdTable, i: usize, contiguous_seven: bool) -> (r: RowView)
    requires
        state.well_formed(),
        ids.well_formed(),
        i < state.snapshot.rows@.len(),
        contiguous_seven == contiguous(state.snapshot@.rows, state.selection@),
    ensures
        r@ == row_view(state.snapshot@, state.selection@, ids@, i as int),
{
    let row = &state.snapshot.rows[i];
    assert(state.snapshot@.rows[i as int] == row@);
    let code = row.player_code.as_str();
    let slam_active = state.selection.eighth_basis == SeatBasis::GrandSlamChampion;
    let (movement, movement_class, movement_sr) = build_movement(row.movement);
    let provisional = state.selection.state(code);
    let (status_label, status_class) = build_status(provisional, slam_active);
    let (margin, margin_class) = build_margin(state.selection.margin(code));
    let ledger = build_ledger(row);
    let row_class = build_classes(ledger.is_some(), provisional, slam_active);
    RowView {
        rank: row.rank,
        movement,
        movement_class,
        movement_sr,
        name: row.player_name.clone(),
        profile_url: profile_in(ids, code),
        country: row.country.clone(),
        official: is_announced(&state.snapshot.qualifiers, code),
        status_label,
        status_class,
        points: thousands(row.race_points),
        margin,
        margin_class,
        row_class,
        ledger,
        // Boundary markers: a strong line after the seventh seat, and an
        // ordinary 8/9 line only when seat 8 comes from race rank. Skip both
        // if withdrawals have made the displayed order non-contiguous.
        cut_strong_after: i == 6 && contiguous_seven,
        cut_ordinary_after: i == 7 && contiguous_seven && !slam_active && provisional
            == Provisional::Eighth,
    }
}

pub fn build_rows(state: &AppState, ids: &IdTable) -> (r: Vec<RowView>)
    requires
        state.well_formed(),
        ids.well_formed(),
    ensures
        row_views_model(r@) == table_view(state.snapshot@, state.selection@, ids@),
{
    let contiguous_seven = is_contiguous(&state.snapshot.rows, &state.selection);
    let mut views: Vec<RowView> = Vec::new();
    let mut i: usize = 0;
    while i < state.snapshot.rows.len()
        invariant
            i <= state.snapshot.rows@.len(),
            state.well_formed(),
            ids.well_formed(),
            contiguous_seven == contiguous(state.snapshot@.rows, state.selection@),
            views@.len() == i,
            forall|k: int|
                0 <= k < i ==> (#[trigger] views@[k])@ == row_view(
                    state.snapshot@,
                    state.selection@,
                    ids@,
                    k,
                ),
        decreases state.snapshot.rows@.len() - i,
    {
        views.push(build_row(state, ids, i, contiguous_seven));
        i += 1;
    }
    assert(row_views_model(views@) =~= table_view(state.snapshot@, state.selection@, ids@));
    views
}

// ---------------------------------------------------------------------------
// The pages
// ---------------------------------------------------------------------------

pub struct IndexPage {
    pub season: u16,
    pub css_version: String,
    pub canonical: String,
    /// Doubles as meta description and shared-link preview text.
    pub summary_text: String,
    pub fresh: FreshView,
    pub summary: SummaryView,
    pub rows: Vec<RowView>,
    /// False when no row carries a breakdown — serving a snapshot written
    /// before ledgers existed, say — so the page does not offer an expansion
    /// that is not there.
    pub any_ledger: bool,
    pub slam_provision_active: bool,
}

/// Some row of the table has a breakdown.
pub open spec fn some_ledger(rows: Seq<RowModel>) -> bool {
    exists|i: int| 0 <= i < rows.len() && (#[trigger] rows[i]).results.len() > 0
}

fn any_breakdown(rows: &Vec<RowView>, snapshot: &Snapshot) -> (r: bool)
    requires
        rows@.len() == snapshot@.rows.len(),
        forall|i: int|
            0 <= i < rows@.len() ==> ledger_opt((#[trigger] rows@[i]).ledger) == ledger_of(
                snapshot@.rows[i],
            ),
    ensures
        r == some_ledger(snapshot@.rows),
{
    let mut i: usize = 0;
    while i < rows.len()
        invariant
            i <= rows@.len(),
            rows@.len() == snapshot@.rows.len(),
            forall|k: int|
                0 <= k < rows@.len() ==> ledger_opt((#[trigger] rows@[k]).ledger) == ledger_of(
                    snapshot@.rows[k],
                ),
            forall|k: int| 0 <= k < i ==> (#[trigger] snapshot@.rows[k]).results.len() == 0,
        decreases rows@.len() - i,
    {
        assert(ledger_opt(rows@[i as int].ledger) == ledger_of(snapshot@.rows[i as int]));
        if rows[i].ledger.is_some() {
            return true;
        }
        i += 1;
    }
    false
}

/// Everything on the front page, at the moment `now`.
pub fn build_index(state: &AppState, ids: &IdTable, now: &Timestamp) -> (r: IndexPage)
    requires
        state.well_formed(),
        ids.well_formed(),
        now.valid(),
    ensures
        r.season == state.curated.season,
        r.css_version@ == style_version(APP_CSS@),
        r.canonical@ == state.base_url@,
        r.summary.officials@ == officials_text(state.snapshot@),
        r.summary.top_seven@ == joined(
            top_seven_names(state.snapshot@.rows, state.selection@),
            ", "@,
        ),
        r.summary.eighth@ == eighth_text(state.snapshot@.rows, state.selection@),
        r.summary.basis_sentence@ == basis_text(
            state.snapshot@.rows,
            state.selection@,
            state.curated.season,
        ),
        r.summary.alternate@ == name_or_dash(state.snapshot@.rows, state.selection@.alternate_code),
        r.summary_text@ == preview_text(
            state.snapshot@,
            state.selection@,
            state.curated.season,
            r.summary.alternate@,
        ),
        r.fresh.is_stale == over(source_age(state.snapshot@, *now), state.stale_after),
        r.fresh.collection_stale == over(
            checked_age(state.snapshot@, *now),
            state.check_stale_after,
        ),
        state.stale_after <= i64::MAX ==> r.fresh.is_stale == (seconds_from(
            state.snapshot.source_as_of,
            *now,
        ) > state.stale_after),
        state.check_stale_after <= i64::MAX ==> r.fresh.collection_stale == (seconds_from(
            state.snapshot.generated_at,
            *now,
        ) > state.check_stale_after),
        r.fresh.accuracy_label@ == (if r.fresh.is_stale {
            "stale — last known good"@
        } else {
            "official weekly"@
        }),
        r.fresh.age@ == age_text(source_age(state.snapshot@, *now)),
        r.fresh.checked_age@ == age_text(checked_age(state.snapshot@, *now)),
        r.fresh.source_dt@ == machine_text(state.snapshot.source_as_of),
        r.fresh.source_human@ == day_text(state.snapshot.source_as_of),
        r.fresh.generated_dt@ == machine_text(state.snapshot.generated_at),
        r.fresh.generated_human@ == minute_text(state.snapshot.generated_at),
        r.fresh.source@ == state.snapshot.source@,
        r.fresh.parser_version@ == state.snapshot.parser_version@,
        r.fresh.ruleset@ == state.curated.ruleset@,
        r.fresh.version == state.version,
        row_views_model(r.rows@) == table_view(state.snapshot@, state.selection@, ids@),
        r.any_ledger == some_ledger(state.snapshot@.rows),
        r.slam_provision_active == (state.selection.eighth_basis == SeatBasis::GrandSlamChampion),
{
    let summary = build_summary(state);
    let rows = build_rows(state, ids);
    let ghost shown = row_views_model(rows@);
    assert(shown.len() == rows@.len());
    assert forall|i: int| 0 <= i < rows@.len() implies ledger_opt((#[trigger] rows@[i]).ledger)
        == ledger_of(state.snapshot@.rows[i]) by {
        assert(shown[i] == rows@[i]@);
    }
    let any_ledger = any_breakdown(&rows, &state.snapshot);
    IndexPage {
        season: state.curated.season,
        css_version: css_version(),
        canonical: state.base_url.clone(),
        summary_text: shared_link_text(state, &summary),
        fresh: build_fresh(state, now),
        summary,
        any_ledger,
        rows,
        slam_provision_active: state.selection.eighth_basis == SeatBasis::GrandSlamChampion,
    }
}

pub struct MethodologyPage {
    pub season: u16,
    pub css_version: String,
    pub canonical: String,
    pub summary_text: String,
    pub notice: String,
    pub ruleset: String,
    pub parser_version: String,
    pub source: String,
}

/// Everything on the methodology page.
pub fn build_methodology(state: &AppState) -> (r: MethodologyPage)
    ensures
        r.season == state.curated.season,
        r.css_version@ == style_version(APP_CSS@),
        r.canonical@ == state.base_url@ + "/methodology"@,
        r.summary_text@
            == "Where racetotur.in's standings come from, how the Turin qualification rule is applied, and what the freshness labels mean."@,
        r.notice@ == state.curated.notice@,
        r.ruleset@ == state.curated.ruleset@,
        r.parser_version@ == state.snapshot.parser_version@,
        r.source@ == state.snapshot.source@,
{
    let mut canonical = state.base_url.clone();
    canonical.append("/methodology");
    MethodologyPage {
        season: state.curated.season,
        css_version: css_version(),
        canonical,
        summary_text:
            "Where racetotur.in's standings come from, how the Turin qualification rule is applied, and what the freshness labels mean.".to_string(),
        notice: state.curated.notice.clone(),
        ruleset: state.curated.ruleset.clone(),
        parser_version: state.snapshot.parser_version.clone(),
        source: state.snapshot.source.clone(),
    }
}

// ---------------------------------------------------------------------------
// What holds of the pages
// ---------------------------------------------------------------------------

proof fn digits_are_kept(s: Seq<char>)
    requires
        all_digits(s),
    ensures
        ungrouped(s) == s,
    decreases s.len(),
{
    reveal(Seq::filter);
    if s.len() > 0 {
        digits_are_kept(s.drop_last());
        assert(is_digit(s.last()));
        assert(s =~= s.drop_last().push(s.last()));
    }
}

proof fn digits_by_division(n: int)
    requires
        n >= 1000,
    ensures
        n / 10 / 10 / 10 == n / 1000,
        n / 10 / 10 % 10 == n % 1000 / 100,
        n / 10 % 10 == n % 100 / 10,
        n / 10 >= 100,
        n / 10 / 10 >= 10,
{
    let q = n / 1000;
    let r = n % 1000;
    assert(n == 1000 * q + r);
    assert(n / 10 == 100 * q + r / 10);
    assert(n / 10 / 10 == 10 * q + r / 100);
    assert(n % 100 == r % 100);
}

/// The last three digits of a number of four digits or more.
proof fn last_three_digits(n: nat)
    requires
        n >= 1000,
    ensures
        decimal(n) == decimal(n / 1000).push(digit_char(n % 1000 / 100)).push(
            digit_char(n % 100 / 10),
        ).push(digit_char(n % 10)),
{
    let tens = n / 10;
    let hundreds = tens / 10;
    digits_by_division(n as int);
    assert(decimal(hundreds) == decimal(n / 1000).push(digit_char(n % 1000 / 100)));
    assert(decimal(tens) == decimal(hundreds).push(digit_char(n % 100 / 10)));
}

proof fn a_digit_is_no_separator(d: nat)
    requires
        d < 10,
    ensures
        !is_separator(digit_char(d)),
{
}

proof fn grouping_adds_commas(n: nat)
    ensures
        ungrouped(grouped(n)) == decimal(n),
    decreases n,
{
    if n < 1000 {
        decimals_read_back(n);
        digits_are_kept(decimal(n));
    } else {
        grouping_adds_commas(n / 1000);
        last_three_digits(n);
        let h = digit_char(n % 1000 / 100);
        let t = digit_char(n % 100 / 10);
        let o = digit_char(n % 10);
        a_digit_is_no_separator(n % 1000 / 100);
        a_digit_is_no_separator(n % 100 / 10);
        a_digit_is_no_separator(n % 10);
        let g = grouped(n / 1000);
        let keep = |c: char| !is_separator(c);
        assert(grouped(n) =~= g.push(',').push(h).push(t).push(o));
        g.lemma_filter_push(',', keep);
        g.push(',').lemma_filter_push(h, keep);
        g.push(',').push(h).lemma_filter_push(t, keep);
        g.push(',').push(h).push(t).lemma_filter_push(o, keep);
    }
}

/// The points of a total as it is displayed read back as the total.
pub proof fn displayed_points_read_back(n: u32)
    ensures
        points_of(grouped(n as nat)) == Some(n as nat),
{
    grouping_adds_commas(n as nat);
    decimals_read_back(n as nat);
    assert(is_digit(decimal(n as nat)[0]));
}

/// The points that a reader finds on a line of a breakdown.
pub open spec fn points_shown(line: LineModel) -> nat {
    match points_of(line.points) {
        Some(n) => n,
        None => 0,
    }
}

/// The points that a reader finds on the lines of a group, added up.
pub open spec fn lines_total(lines: Seq<LineModel>) -> nat
    decreases lines.len(),
{
    if lines.len() == 0 {
        0
    } else {
        lines_total(lines.drop_last()) + points_shown(lines.last())
    }
}

/// The points that a reader finds in a breakdown, added up.
pub open spec fn groups_total(groups: Seq<GroupModel>) -> nat
    decreases groups.len(),
{
    if groups.len() == 0 {
        0
    } else {
        groups_total(groups.drop_last()) + lines_total(groups.last().results)
    }
}

proof fn a_line_shows_its_points(r: ResultModel)
    requires
        r.played == Played::Result || r.points == 0,
    ensures
        points_shown(result_line(r)) == r.points,
{
    match r.played {
        Played::Result => {
            displayed_points_read_back(r.points);
        },
        Played::Absent => {
            displayed_points_read_back(0);
            reveal_strlit("0");
            assert("0"@ =~= grouped(0));
        },
        Played::Pending => {
            reveal_strlit("–");
            let s = "–"@;
            reveal(Seq::filter);
            assert(s =~= seq!['–']);
            assert(s.drop_last() =~= seq![]);
            assert(ungrouped(s.drop_last()) =~= seq![]);
            assert(ungrouped(s) =~= seq!['–']);
            assert(ungrouped(s)[0] == '–');
            assert(!is_digit(ungrouped(s)[0]));
        },
    }
}

proof fn a_line_adds_its_points(groups: Seq<GroupModel>, title: Seq<char>, line: LineModel)
    ensures
        groups_total(with_line(groups, title, line)) == groups_total(groups) + points_shown(line),
{
    let now = with_line(groups, title, line);
    if groups.len() > 0 && groups.last().title == title {
        assert(now.drop_last() =~= groups.drop_last());
        let lines = groups.last().results;
        assert(lines.push(line).drop_last() =~= lines);
    } else {
        assert(now.drop_last() =~= groups);
        assert(seq![line].drop_last() =~= seq![]);
        assert(lines_total(seq![line]) == points_shown(line)) by {
            reveal_with_fuel(lines_total, 2);
        }
    }
}

proof fn a_breakdown_adds_up(results: Seq<ResultModel>)
    requires
        unplayed_carry_nothing(results),
    ensures
        groups_total(line_groups(results)) == ledger_sum(results),
    decreases results.len(),
{
    if results.len() > 0 {
        let front = results.drop_last();
        assert forall|i: int| 0 <= i < front.len() implies (#[trigger] front[i]).played
            == Played::Result || front[i].points == 0 by {
            assert(front[i] == results[i]);
        }
        a_breakdown_adds_up(front);
        assert(results[results.len() - 1] == results.last());
        a_line_shows_its_points(results.last());
        a_line_adds_its_points(
            line_groups(front),
            slot_title(results.last().slot),
            result_line(results.last()),
        );
    }
}

/// A displayed breakdown states the total that its row states, and the points
/// on its lines add up to it: a reader can check every total on the page.
pub proof fn every_displayed_breakdown_adds_up_to_its_total(row: RowModel)
    requires
        honest_row(row),
    ensures
        ledger_of(row) matches Some(ledger) ==> {
            &&& ledger.total == grouped(row.race_points as nat)
            &&& groups_total(ledger.groups) == row.race_points
        },
{
    a_breakdown_adds_up(row.results);
}

/// A row is displayed with a breakdown exactly when it has a ledger.
pub proof fn only_ledgers_are_expanded(
    s: SnapshotModel,
    selection: SelectionModel,
    ids: Map<Seq<char>, Seq<char>>,
    i: int,
)
    requires
        0 <= i < s.rows.len(),
    ensures
        table_view(s, selection, ids)[i].ledger is Some <==> s.rows[i].results.len() > 0,
        table_view(s, selection, ids)[i].ledger is Some ==> some_ledger(s.rows),
{
}

/// A skipped event and one not held yet never read alike: neither as a symbol,
/// nor in points, nor spoken, nor styled.
pub proof fn skipped_and_unplayed_read_differently(skipped: ResultModel, unplayed: ResultModel)
    requires
        skipped.played == Played::Absent,
        unplayed.played == Played::Pending,
    ensures
        result_line(skipped).round != result_line(unplayed).round,
        result_line(skipped).points != result_line(unplayed).points,
        result_line(skipped).sr_note != result_line(unplayed).sr_note,
        result_line(skipped).class != result_line(unplayed).class,
{
    reveal_strlit("A");
    reveal_strlit("0");
    reveal_strlit("–");
    reveal_strlit("did not play");
    reveal_strlit("not played yet");
    reveal_strlit("absent");
    reveal_strlit("pending");
    assert("A"@[0] == 'A');
    assert("0"@[0] == '0');
    assert("–"@[0] == '–');
    assert("did not play"@[0] == 'd');
    assert("not played yet"@[0] == 'n');
    assert("absent"@[0] == 'a');
    assert("pending"@[0] == 'p');
}

/// A result counted in place of a mandatory event names the event played, and
/// says which event it stands in for.
pub proof fn a_substitution_names_the_event_played(r: ResultModel)
    requires
        r.played == Played::Result,
        r.substituted,
    ensures
        result_line(r).event == r.event_name,
        result_line(r).event_url == Some(article_address(r.event_code)),
        r.slot_label.len() > 0 ==> result_line(r).qualifier == "for "@ + r.slot_label,
{
}

/// Under the Grand Slam champion provision there is no single line of points:
/// no margin is displayed, and no ordinary cut is drawn.
pub proof fn no_single_line_under_the_champion_provision(
    s: SnapshotModel,
    champions: Set<Seq<char>>,
    withdrawn: Set<Seq<char>>,
    ids: Map<Seq<char>, Seq<char>>,
    i: int,
)
    requires
        0 <= i < s.rows.len(),
        selection_of(s.rows, champions, withdrawn).eighth_basis == SeatBasis::GrandSlamChampion,
    ensures
        ({
            let view = table_view(s, selection_of(s.rows, champions, withdrawn), ids)[i];
            view.margin == "–"@ && !view.cut_ordinary_after
        }),
{
}

/// A row is marked official exactly when a qualification of its player has been
/// announced, whatever its points, rank or seat.
pub proof fn official_status_is_never_inferred(
    a: SnapshotModel,
    b: SnapshotModel,
    selection_a: SelectionModel,
    selection_b: SelectionModel,
    ids: Map<Seq<char>, Seq<char>>,
    i: int,
    j: int,
)
    requires
        0 <= i < a.rows.len(),
        0 <= j < b.rows.len(),
        a.qualifiers == b.qualifiers,
        a.rows[i].player_code == b.rows[j].player_code,
    ensures
        table_view(a, selection_a, ids)[i].official == table_view(b, selection_b, ids)[j].official,
        table_view(a, selection_a, ids)[i].official == announced(
            a.qualifiers,
            a.rows[i].player_code,
        ),
{
}

/// What parses from an article can be served.
pub proof fn a_parsed_article_can_be_served(
    wikitext: Seq<char>,
    label: Seq<char>,
    season: i32,
    now: Timestamp,
)
    requires
        now.valid(),
    ensures
        snapshot_in(wikitext, label, season, now) matches Ok(s) ==> servable(s),
{
    a_parsed_snapshot_is_trustworthy(wikitext, label, season, now);
    if let Ok(s) = snapshot_in(wikitext, label, season, now) {
        assert forall|i: int| 0 <= i < s.rows.len() implies servable_row(#[trigger] s.rows[i]) by {
            assert(honest_row(s.rows[i]));
        }
        assert forall|i: int| 0 <= i < s.qualifiers.len() implies (
        #[trigger] s.qualifiers[i]).qualified_on.valid() by {
            assert(honest_qualifier(s.qualifiers[i], season));
        }
    }
}

} // verus!
