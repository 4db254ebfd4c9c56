//! What the database holds: snapshots as plain columns, the decision whether a
//! candidate is new, and the movement between two stored tables.

use vstd::prelude::*;

use crate::calendar::{
    format_rfc3339, from_calendar_date, parse_rfc3339, rfc3339_read, rfc3339_text, rfc3339_writable,
    valid_date, CalendarDate, Timestamp,
};
use crate::canonical::{
    canonical, canonical_text, live_canonical, live_canonical_text, live_tables_are_told_apart,
    tables_are_told_apart,
};
use crate::digest::{hex_digest, text_digest};
use crate::model::{
    dated, played_code, played_codes_round_trip, played_of_code, qualifiers_model, results_model,
    rows_model, slot_code, slot_codes_round_trip, slot_of_code, stored_words_are_read,
    OfficialQualifier, Played, QualifierModel, RaceRow, ResultModel, RowModel, Slot, Snapshot,
    SnapshotModel, TournamentResult,
};
use crate::parser::{
    live_rows_model, EventModel, EventState, LiveRow, LiveRowModel, LiveSnapshot,
    LiveSnapshotModel,
};
use crate::qualification::no_duplicates;
use crate::source::{
    a_parsed_snapshot_is_trustworthy, honest_qualifier, honest_row, snapshot_in,
};
use crate::text::{
    append_int, append_number, clone_opt, debug_quoted, debug_text, decimal, decimal_int, same_text,
    string_opt,
};

verus! {

/// Pass as the db path to run against a throwaway in-memory database.
pub const MEMORY: &'static str = ":memory:";

// ---------------------------------------------------------------------------
// Publishing
// ---------------------------------------------------------------------------

#[derive(Debug, Clone, Copy)]
pub struct PublishOutcome {
    pub version: i64,
    /// False when the content hash matched the current snapshot and no
    /// new version was written.
    pub created: bool,
}

/// What to do with a candidate.
#[derive(Debug, Clone, Copy)]
pub enum Publication {
    /// The stored snapshot stands and nothing is written.
    Keep(PublishOutcome),
    /// Write a new immutable snapshot and move the current pointer to it.
    Write(PublishOutcome),
}

/// Whether a candidate is new, given the version and the hash that are current.
/// Versions are counted from one.
pub open spec fn publication(current: Option<(i64, Seq<char>)>, hash: Seq<char>) -> Publication {
    match current {
        Some((version, existing)) => if existing == hash {
            Publication::Keep(PublishOutcome { version, created: false })
        } else {
            Publication::Write(PublishOutcome { version: (version + 1) as i64, created: true })
        },
        None => Publication::Write(PublishOutcome { version: 1, created: true }),
    }
}

/// What the current pointer designates, as text.
pub open spec fn current_model(current: Option<(i64, String)>) -> Option<(i64, Seq<char>)> {
    match current {
        Some((version, hash)) => Some((version, hash@)),
        None => None,
    }
}

/// Whether there is a version behind the current one.
pub open spec fn versions_remain(current: Option<(i64, String)>) -> bool {
    current matches Some((version, _)) ==> version < i64::MAX
}

/// Insert a validated candidate as a new immutable snapshot and move the
/// current pointer, unless its content hash matches what is already current —
/// then the stored snapshot stands and nothing is written.
pub fn decide_publication(current: &Option<(i64, String)>, hash: &str) -> (r: Publication)
    requires
        versions_remain(*current),
    ensures
        r == publication(current_model(*current), hash@),
{
    match current {
        Some((version, existing)) => if same_text(existing.as_str(), hash) {
            Publication::Keep(PublishOutcome { version: *version, created: false })
        } else {
            Publication::Write(PublishOutcome { version: *version + 1, created: true })
        },
        None => Publication::Write(PublishOutcome { version: 1, created: true }),
    }
}

// ---------------------------------------------------------------------------
// Moments as text
// ---------------------------------------------------------------------------

/// Why a snapshot cannot be written, or what is stored cannot be read.
#[derive(Debug, Clone)]
pub enum StoreError {
    UnwritableTimestamp,
    BadTimestamp { text: String },
    UnknownSlot { code: String },
    UnknownPlayed { code: String },
    BadDate { year: i32, month: u8, day: u8 },
}

/// What a `StoreError` says.
pub enum StoreErrorModel {
    UnwritableTimestamp,
    BadTimestamp { text: Seq<char> },
    UnknownSlot { code: Seq<char> },
    UnknownPlayed { code: Seq<char> },
    BadDate { year: i32, month: u8, day: u8 },
}

impl View for StoreError {
    type V = StoreErrorModel;

    open spec fn view(&self) -> StoreErrorModel {
        match *self {
            StoreError::UnwritableTimestamp => StoreErrorModel::UnwritableTimestamp,
            StoreError::BadTimestamp { text } => StoreErrorModel::BadTimestamp { text: text@ },
            StoreError::UnknownSlot { code } => StoreErrorModel::UnknownSlot { code: code@ },
            StoreError::UnknownPlayed { code } => StoreErrorModel::UnknownPlayed { code: code@ },
            StoreError::BadDate { year, month, day } => StoreErrorModel::BadDate {
                year,
                month,
                day,
            },
        }
    }
}

/// A moment as it is stored. Reading it back gives the moment.
pub fn fmt(t: &Timestamp) -> (r: Result<String, StoreError>)
    requires
        t.valid(),
    ensures
        match r {
            Ok(s) => rfc3339_writable(*t) && s@ == rfc3339_text(*t) && stamp_read(s@) == Ok::<
                Timestamp,
                StoreErrorModel,
            >(*t),
            Err(e) => !rfc3339_writable(*t) && e@ == StoreErrorModel::UnwritableTimestamp,
        },
{
    match format_rfc3339(t) {
        Some(s) => Ok(s),
        None => Err(StoreError::UnwritableTimestamp),
    }
}

/// The moment that a stored text names.
pub open spec fn stamp_read(s: Seq<char>) -> Result<Timestamp, StoreErrorModel> {
    match rfc3339_read(s) {
        Some(t) => Ok(t),
        None => Err(StoreErrorModel::BadTimestamp { text: s }),
    }
}

/// A moment is read back from the text it is stored as.
pub open spec fn reads_back(t: Timestamp) -> bool {
    stamp_read(rfc3339_text(t)) == Ok::<Timestamp, StoreErrorModel>(t)
}

/// The moment that a stored text names.
pub fn parse_ts(s: &str) -> (r: Result<Timestamp, StoreError>)
    ensures
        match r {
            Ok(t) => t.valid() && stamp_read(s@) == Ok::<Timestamp, StoreErrorModel>(t),
            Err(e) => stamp_read(s@) == Err::<Timestamp, StoreErrorModel>(e@),
        },
{
    match parse_rfc3339(s) {
        Some(t) => Ok(t),
        None => Err(StoreError::BadTimestamp { text: s.to_string() }),
    }
}

/// The columns of a snapshot itself.
#[derive(Debug, Clone)]
pub struct StoredMeta {
    pub created_at: String,
    pub source_as_of: String,
    pub source: String,
    pub parser_version: String,
}

/// What `StoredMeta` say.
pub struct MetaModel {
    pub created_at: Seq<char>,
    pub source_as_of: Seq<char>,
    pub source: Seq<char>,
    pub parser_version: Seq<char>,
}

impl View for StoredMeta {
    type V = MetaModel;

    open spec fn view(&self) -> MetaModel {
        MetaModel {
            created_at: self.created_at@,
            source_as_of: self.source_as_of@,
            source: self.source@,
            parser_version: self.parser_version@,
        }
    }
}

/// The columns of a snapshot, given its moments and labels.
fn meta_of(
    generated_at: &Timestamp,
    source_as_of: &Timestamp,
    source: &String,
    parser_version: &String,
) -> (r: Result<StoredMeta, StoreError>)
    requires
        generated_at.valid(),
        source_as_of.valid(),
    ensures
        match r {
            Ok(m) => {
                &&& rfc3339_writable(*generated_at) && rfc3339_writable(*source_as_of)
                &&& m@ == (MetaModel {
                    created_at: rfc3339_text(*generated_at),
                    source_as_of: rfc3339_text(*source_as_of),
                    source: source@,
                    parser_version: parser_version@,
                })
                &&& stamp_read(m.created_at@) == Ok::<Timestamp, StoreErrorModel>(*generated_at)
                &&& stamp_read(m.source_as_of@) == Ok::<Timestamp, StoreErrorModel>(*source_as_of)
            },
            Err(e) => e@ == StoreErrorModel::UnwritableTimestamp && !(rfc3339_writable(
                *generated_at,
            ) && rfc3339_writable(*source_as_of)),
        },
{
    let created_at = match fmt(generated_at) {
        Ok(s) => s,
        Err(e) => {
            return Err(e);
        },
    };
    let as_of = match fmt(source_as_of) {
        Ok(s) => s,
        Err(e) => {
            return Err(e);
        },
    };
    Ok(
        StoredMeta {
            created_at,
            source_as_of: as_of,
            source: source.clone(),
            parser_version: parser_version.clone(),
        },
    )
}

// ---------------------------------------------------------------------------
// Live rows as columns
// ---------------------------------------------------------------------------

/// The columns of a live row.
#[derive(Debug, Clone)]
pub struct LiveRecord {
    pub rank: i64,
    pub movement: Option<i32>,
    pub player_code: String,
    pub player_name: String,
    pub country: String,
    pub live_points: i64,
    pub event_name: Option<String>,
    pub event_round: Option<String>,
    pub next_points: Option<i64>,
    pub max_this_week: Option<i64>,
    pub unavailable_reason: Option<String>,
}

/// What a `LiveRecord` says.
pub struct LiveRecordModel {
    pub rank: i64,
    pub movement: Option<i32>,
    pub player_code: Seq<char>,
    pub player_name: Seq<char>,
    pub country: Seq<char>,
    pub live_points: i64,
    pub event_name: Option<Seq<char>>,
    pub event_round: Option<Seq<char>>,
    pub next_points: Option<i64>,
    pub max_this_week: Option<i64>,
    pub unavailable_reason: Option<Seq<char>>,
}

impl View for LiveRecord {
    type V = LiveRecordModel;

    open spec fn view(&self) -> LiveRecordModel {
        LiveRecordModel {
            rank: self.rank,
            movement: self.movement,
            player_code: self.player_code@,
            player_name: self.player_name@,
            country: self.country@,
            live_points: self.live_points,
            event_name: string_opt(self.event_name),
            event_round: string_opt(self.event_round),
            next_points: self.next_points,
            max_this_week: self.max_this_week,
            unavailable_reason: string_opt(self.unavailable_reason),
        }
    }
}

/// What a list of live records says.
pub open spec fn live_records_model(records: Seq<LiveRecord>) -> Seq<LiveRecordModel> {
    records.map_values(|r: LiveRecord| r@)
}

/// A count as a column.
pub open spec fn widened(n: Option<u32>) -> Option<i64> {
    match n {
        Some(v) => Some(v as i64),
        None => None,
    }
}

/// A column as a count: nothing below zero, and no more bits than a count has.
pub open spec fn as_count(v: i64) -> u32 {
    (if v < 0 {
        0i64
    } else {
        v
    }) as u32
}

/// A column as a count, where there is one.
pub open spec fn as_count_opt(v: Option<i64>) -> Option<u32> {
    match v {
        Some(n) => Some(as_count(n)),
        None => None,
    }
}

fn widen(n: Option<u32>) -> (r: Option<i64>)
    ensures
        r == widened(n),
{
    match n {
        Some(v) => Some(v as i64),
        None => None,
    }
}

fn to_count(v: i64) -> (r: u32)
    ensures
        r == as_count(v),
{
    let v: i64 = if v < 0 {
        0
    } else {
        v
    };
    #[verifier::truncate]
    (v as u32)
}

fn to_count_opt(v: Option<i64>) -> (r: Option<u32>)
    ensures
        r == as_count_opt(v),
{
    match v {
        Some(n) => Some(to_count(n)),
        None => None,
    }
}

/// The columns of a live row.
pub open spec fn live_record(row: LiveRowModel) -> LiveRecordModel {
    LiveRecordModel {
        rank: row.rank as i64,
        movement: row.movement,
        player_code: row.player_code,
        player_name: row.player_name,
        country: row.country,
        live_points: row.live_points as i64,
        event_name: match row.event {
            Some(e) => Some(e.name),
            None => None,
        },
        event_round: match row.event {
            Some(e) => Some(e.round),
            None => None,
        },
        next_points: widened(row.next_points),
        max_this_week: widened(row.max_this_week),
        unavailable_reason: row.unavailable_reason,
    }
}

/// The live row that columns give.
pub open spec fn live_row(record: LiveRecordModel) -> LiveRowModel {
    LiveRowModel {
        rank: as_count(record.rank),
        movement: record.movement,
        player_code: record.player_code,
        player_name: record.player_name,
        country: record.country,
        live_points: as_count(record.live_points),
        event: match record.event_name {
            Some(name) => Some(
                EventModel {
                    name,
                    round: match record.event_round {
                        Some(round) => round,
                        None => seq![],
                    },
                },
            ),
            None => None,
        },
        next_points: as_count_opt(record.next_points),
        max_this_week: as_count_opt(record.max_this_week),
        unavailable_reason: record.unavailable_reason,
    }
}

pub fn row_to_db(row: &LiveRow) -> (r: LiveRecord)
    ensures
        r@ == live_record(row@),
{
    let (event_name, event_round) = match &row.event {
        Some(e) => (Some(e.name.clone()), Some(e.round.clone())),
        None => (None, None),
    };
    LiveRecord {
        rank: row.rank as i64,
        movement: row.movement,
        player_code: row.player_code.clone(),
        player_name: row.player_name.clone(),
        country: row.country.clone(),
        live_points: row.live_points as i64,
        event_name,
        event_round,
        next_points: widen(row.next_points),
        max_this_week: widen(row.max_this_week),
        unavailable_reason: clone_opt(&row.unavailable_reason),
    }
}

pub fn row_from_db(record: &LiveRecord) -> (r: LiveRow)
    ensures
        r@ == live_row(record@),
{
    LiveRow {
        rank: to_count(record.rank),
        movement: record.movement,
        player_code: record.player_code.clone(),
        player_name: record.player_name.clone(),
        country: record.country.clone(),
        live_points: to_count(record.live_points),
        event: match &record.event_name {
            Some(name) => Some(
                EventState {
                    name: name.clone(),
                    round: match &record.event_round {
                        Some(round) => round.clone(),
                        None => String::new(),
                    },
                },
            ),
            None => None,
        },
        next_points: to_count_opt(record.next_points),
        max_this_week: to_count_opt(record.max_this_week),
        unavailable_reason: clone_opt(&record.unavailable_reason),
    }
}

/// A live row survives being stored and read back.
pub proof fn live_rows_round_trip(row: LiveRowModel)
    ensures
        live_row(live_record(row)) == row,
{
}

/// The columns of a live table.
pub open spec fn live_records(rows: Seq<LiveRowModel>) -> Seq<LiveRecordModel> {
    rows.map_values(|row: LiveRowModel| live_record(row))
}

fn live_rows_to_db(rows: &Vec<LiveRow>) -> (r: Vec<LiveRecord>)
    ensures
        live_records_model(r@) == live_records(live_rows_model(rows@)),
{
    let mut records: Vec<LiveRecord> = Vec::new();
    let mut i: usize = 0;
    while i < rows.len()
        invariant
            i <= rows@.len(),
            records@.len() == i,
            forall|k: int| 0 <= k < i ==> (#[trigger] records@[k])@ == live_record(rows@[k]@),
        decreases rows@.len() - i,
    {
        records.push(row_to_db(&rows[i]));
        i += 1;
    }
    assert(live_records_model(records@) =~= live_records(live_rows_model(rows@)));
    records
}

/// The hash of a live table's canonical text.
pub open spec fn live_rows_hash(rows: Seq<LiveRowModel>) -> Seq<char> {
    text_digest(live_canonical_text(live_records(rows)))
}

/// Hash of the normalized live rows only.
pub fn live_content_hash(rows: &Vec<LiveRow>) -> (r: String)
    ensures
        r@ == live_rows_hash(live_rows_model(rows@)),
        r@.len() == 64,
{
    let records = live_rows_to_db(rows);
    hex_digest(live_canonical(&records).as_str())
}

/// Two live tables have the same canonical text exactly when they are the same.
pub proof fn live_rows_are_told_apart(a: Seq<LiveRowModel>, b: Seq<LiveRowModel>)
    ensures
        live_canonical_text(live_records(a)) == live_canonical_text(live_records(b)) <==> a == b,
{
    let x = live_records(a);
    let y = live_records(b);
    live_tables_are_told_apart(x, y);
    if x == y {
        assert(a.len() == x.len() && b.len() == y.len());
        assert forall|i: int| 0 <= i < a.len() implies a[i] == b[i] by {
            assert(x[i] == y[i]);
            live_rows_round_trip(a[i]);
            live_rows_round_trip(b[i]);
        }
        assert(a =~= b);
    }
}

/// The columns of a live snapshot itself.
pub open spec fn live_meta(s: LiveSnapshotModel) -> MetaModel {
    MetaModel {
        created_at: rfc3339_text(s.generated_at),
        source_as_of: rfc3339_text(s.source_as_of),
        source: s.source,
        parser_version: s.parser_version,
    }
}

/// The moments of a live snapshot are read back from the texts they are stored
/// as.
pub open spec fn live_stamped(s: LiveSnapshotModel) -> bool {
    reads_back(s.generated_at) && reads_back(s.source_as_of)
}

/// A live snapshot survives being stored and read back.
pub proof fn live_snapshots_round_trip(s: LiveSnapshotModel)
    ensures
        live_stamped(s) ==> live_restored(live_meta(s), live_records(s.rows)) == Ok::<
            LiveSnapshotModel,
            StoreErrorModel,
        >(s),
{
    let records = live_records(s.rows);
    assert forall|k: int| 0 <= k < records.len() implies live_row(#[trigger] records[k])
        == s.rows[k] by {
        live_rows_round_trip(s.rows[k]);
    }
    assert(records.map_values(|r: LiveRecordModel| live_row(r)) =~= s.rows);
}

/// The live snapshot that stored columns give.
pub open spec fn live_restored(meta: MetaModel, records: Seq<LiveRecordModel>) -> Result<
    LiveSnapshotModel,
    StoreErrorModel,
> {
    match stamp_read(meta.source_as_of) {
        Err(e) => Err(e),
        Ok(source_as_of) => match stamp_read(meta.created_at) {
            Err(e) => Err(e),
            Ok(generated_at) => Ok(
                LiveSnapshotModel {
                    source_as_of,
                    generated_at,
                    source: meta.source,
                    parser_version: meta.parser_version,
                    rows: records.map_values(|r: LiveRecordModel| live_row(r)),
                },
            ),
        },
    }
}

/// The columns of a live snapshot. Reading them back gives the snapshot.
pub fn store_live(snapshot: &LiveSnapshot) -> (r: Result<(StoredMeta, Vec<LiveRecord>), StoreError>)
    requires
        snapshot.generated_at.valid(),
        snapshot.source_as_of.valid(),
    ensures
        match r {
            Ok((meta, records)) => {
                &&& rfc3339_writable(snapshot.generated_at)
                &&& rfc3339_writable(snapshot.source_as_of)
                &&& meta@ == live_meta(snapshot@)
                &&& live_stamped(snapshot@)
                &&& live_records_model(records@) == live_records(snapshot@.rows)
                &&& live_restored(meta@, live_records_model(records@)) == Ok::<
                    LiveSnapshotModel,
                    StoreErrorModel,
                >(snapshot@)
            },
            Err(e) => e@ == StoreErrorModel::UnwritableTimestamp && !(rfc3339_writable(
                snapshot.generated_at,
            ) && rfc3339_writable(snapshot.source_as_of)),
        },
{
    let meta = match meta_of(
        &snapshot.generated_at,
        &snapshot.source_as_of,
        &snapshot.source,
        &snapshot.parser_version,
    ) {
        Ok(m) => m,
        Err(e) => {
            return Err(e);
        },
    };
    let records = live_rows_to_db(&snapshot.rows);
    proof {
        live_snapshots_round_trip(snapshot@);
    }
    Ok((meta, records))
}

/// The live snapshot that stored columns give.
pub fn load_live(meta: &StoredMeta, records: &Vec<LiveRecord>) -> (r: Result<
    LiveSnapshot,
    StoreError,
>)
    ensures
        match r {
            Ok(s) => live_restored(meta@, live_records_model(records@)) == Ok::<
                LiveSnapshotModel,
                StoreErrorModel,
            >(s@) && s.source_as_of.valid() && s.generated_at.valid(),
            Err(e) => live_restored(meta@, live_records_model(records@)) == Err::<
                LiveSnapshotModel,
                StoreErrorModel,
            >(e@),
        },
{
    let source_as_of = match parse_ts(meta.source_as_of.as_str()) {
        Ok(t) => t,
        Err(e) => {
            return Err(e);
        },
    };
    let generated_at = match parse_ts(meta.created_at.as_str()) {
        Ok(t) => t,
        Err(e) => {
            return Err(e);
        },
    };
    let mut rows: Vec<LiveRow> = Vec::new();
    let mut i: usize = 0;
    while i < records.len()
        invariant
            i <= records@.len(),
            rows@.len() == i,
            forall|k: int| 0 <= k < i ==> (#[trigger] rows@[k])@ == live_row(records@[k]@),
        decreases records@.len() - i,
    {
        rows.push(row_from_db(&records[i]));
        i += 1;
    }
    assert(live_rows_model(rows@) =~= live_records_model(records@).map_values(
        |r: LiveRecordModel| live_row(r),
    ));
    Ok(
        LiveSnapshot {
            source_as_of,
            generated_at,
            source: meta.source.clone(),
            parser_version: meta.parser_version.clone(),
            rows,
        },
    )
}

// ---------------------------------------------------------------------------
// Standings as columns
// ---------------------------------------------------------------------------

/// The columns of one ledger entry.
#[derive(Debug, Clone)]
pub struct ResultRecord {
    pub slot: String,
    pub slot_label: String,
    pub played: String,
    pub event_code: String,
    pub event_name: String,
    pub round: String,
    pub points: i64,
    pub substituted: bool,
}

/// What a `ResultRecord` says.
pub struct ResultRecordModel {
    pub slot: Seq<char>,
    pub slot_label: Seq<char>,
    pub played: Seq<char>,
    pub event_code: Seq<char>,
    pub event_name: Seq<char>,
    pub round: Seq<char>,
    pub points: i64,
    pub substituted: bool,
}

impl View for ResultRecord {
    type V = ResultRecordModel;

    open spec fn view(&self) -> ResultRecordModel {
        ResultRecordModel {
            slot: self.slot@,
            slot_label: self.slot_label@,
            played: self.played@,
            event_code: self.event_code@,
            event_name: self.event_name@,
            round: self.round@,
            points: self.points,
            substituted: self.substituted,
        }
    }
}

/// What a list of ledger records says.
pub open spec fn result_records_model(records: Seq<ResultRecord>) -> Seq<ResultRecordModel> {
    records.map_values(|r: ResultRecord| r@)
}

/// The columns of one player's line, with its ledger. Movement is derived from
/// stored tables and not itself stored.
#[derive(Debug, Clone)]
pub struct RaceRecord {
    pub rank: i64,
    pub player_code: String,
    pub player_name: String,
    pub country: String,
    pub race_points: i64,
    pub tournaments_played: Option<i64>,
    pub titles: Option<i64>,
    pub results: Vec<ResultRecord>,
}

/// What a `RaceRecord` says.
pub struct RaceRecordModel {
    pub rank: i64,
    pub player_code: Seq<char>,
    pub player_name: Seq<char>,
    pub country: Seq<char>,
    pub race_points: i64,
    pub tournaments_played: Option<i64>,
    pub titles: Option<i64>,
    pub results: Seq<ResultRecordModel>,
}

impl View for RaceRecord {
    type V = RaceRecordModel;

    open spec fn view(&self) -> RaceRecordModel {
        RaceRecordModel {
            rank: self.rank,
            player_code: self.player_code@,
            player_name: self.player_name@,
            country: self.country@,
            race_points: self.race_points,
            tournaments_played: self.tournaments_played,
            titles: self.titles,
            results: result_records_model(self.results@),
        }
    }
}

/// What a list of records says.
pub open spec fn race_records_model(records: Seq<RaceRecord>) -> Seq<RaceRecordModel> {
    records.map_values(|r: RaceRecord| r@)
}

/// The columns of one announced qualification.
#[derive(Debug, Clone)]
pub struct QualifierRecord {
    pub player_code: String,
    pub year: i32,
    pub month: u8,
    pub day: u8,
    pub source_url: String,
}

/// What a `QualifierRecord` says.
pub struct QualifierRecordModel {
    pub player_code: Seq<char>,
    pub year: i32,
    pub month: u8,
    pub day: u8,
    pub source_url: Seq<char>,
}

impl View for QualifierRecord {
    type V = QualifierRecordModel;

    open spec fn view(&self) -> QualifierRecordModel {
        QualifierRecordModel {
            player_code: self.player_code@,
            year: self.year,
            month: self.month,
            day: self.day,
            source_url: self.source_url@,
        }
    }
}

/// What a list of qualifier records says.
pub open spec fn qualifier_records_model(records: Seq<QualifierRecord>) -> Seq<
    QualifierRecordModel,
> {
    records.map_values(|r: QualifierRecord| r@)
}

/// The columns of a ledger entry.
pub open spec fn result_record(r: ResultModel) -> ResultRecordModel {
    ResultRecordModel {
        slot: slot_code(r.slot),
        slot_label: r.slot_label,
        played: played_code(r.played),
        event_code: r.event_code,
        event_name: r.event_name,
        round: r.round,
        points: r.points as i64,
        substituted: r.substituted,
    }
}

/// The ledger entry that columns give.
pub open spec fn stored_result(r: ResultRecordModel) -> Result<ResultModel, StoreErrorModel> {
    match slot_of_code(r.slot) {
        None => Err(StoreErrorModel::UnknownSlot { code: r.slot }),
        Some(slot) => match played_of_code(r.played) {
            None => Err(StoreErrorModel::UnknownPlayed { code: r.played }),
            Some(played) => Ok(
                ResultModel {
                    slot,
                    slot_label: r.slot_label,
                    played,
                    event_code: r.event_code,
                    event_name: r.event_name,
                    round: r.round,
                    points: as_count(r.points),
                    substituted: r.substituted,
                },
            ),
        },
    }
}

/// The ledger that columns give, or the first entry that gives none.
pub open spec fn stored_results(records: Seq<ResultRecordModel>) -> Result<
    Seq<ResultModel>,
    StoreErrorModel,
>
    decreases records.len(),
{
    if records.len() == 0 {
        Ok(seq![])
    } else {
        match stored_results(records.drop_last()) {
            Err(e) => Err(e),
            Ok(results) => match stored_result(records.last()) {
                Err(e) => Err(e),
                Ok(r) => Ok(results.push(r)),
            },
        }
    }
}

/// The columns of a line.
pub open spec fn race_record(row: RowModel) -> RaceRecordModel {
    RaceRecordModel {
        rank: row.rank as i64,
        player_code: row.player_code,
        player_name: row.player_name,
        country: row.country,
        race_points: row.race_points as i64,
        tournaments_played: widened(row.tournaments_played),
        titles: widened(row.titles),
        results: row.results.map_values(|r: ResultModel| result_record(r)),
    }
}

/// The columns of a table.
pub open spec fn race_records(rows: Seq<RowModel>) -> Seq<RaceRecordModel> {
    rows.map_values(|row: RowModel| race_record(row))
}

/// The line that columns give, without movement.
pub open spec fn stored_row(r: RaceRecordModel) -> Result<RowModel, StoreErrorModel> {
    match stored_results(r.results) {
        Err(e) => Err(e),
        Ok(results) => Ok(
            RowModel {
                rank: as_count(r.rank),
                movement: None,
                player_code: r.player_code,
                player_name: r.player_name,
                country: r.country,
                race_points: as_count(r.race_points),
                results,
                tournaments_played: as_count_opt(r.tournaments_played),
                titles: as_count_opt(r.titles),
            },
        ),
    }
}

/// The table that columns give, or the first line that gives none.
pub open spec fn stored_rows(records: Seq<RaceRecordModel>) -> Result<
    Seq<RowModel>,
    StoreErrorModel,
>
    decreases records.len(),
{
    if records.len() == 0 {
        Ok(seq![])
    } else {
        match stored_rows(records.drop_last()) {
            Err(e) => Err(e),
            Ok(rows) => match stored_row(records.last()) {
                Err(e) => Err(e),
                Ok(row) => Ok(rows.push(row)),
            },
        }
    }
}

/// The columns of an announced qualification.
pub open spec fn qualifier_record(q: QualifierModel) -> QualifierRecordModel {
    QualifierRecordModel {
        player_code: q.player_code,
        year: q.qualified_on.year,
        month: q.qualified_on.month,
        day: q.qualified_on.day,
        source_url: q.source_url,
    }
}

/// The announced qualification that columns give.
pub open spec fn stored_qualifier(r: QualifierRecordModel) -> Result<
    QualifierModel,
    StoreErrorModel,
> {
    if valid_date(r.year as int, r.month as int, r.day as int) {
        Ok(
            QualifierModel {
                player_code: r.player_code,
                qualified_on: CalendarDate { year: r.year, month: r.month, day: r.day },
                source_url: r.source_url,
            },
        )
    } else {
        Err(StoreErrorModel::BadDate { year: r.year, month: r.month, day: r.day })
    }
}

/// The qualifications that columns give, or the first that gives none.
pub open spec fn stored_qualifiers(records: Seq<QualifierRecordModel>) -> Result<
    Seq<QualifierModel>,
    StoreErrorModel,
>
    decreases records.len(),
{
    if records.len() == 0 {
        Ok(seq![])
    } else {
        match stored_qualifiers(records.drop_last()) {
            Err(e) => Err(e),
            Ok(qualifiers) => match stored_qualifier(records.last()) {
                Err(e) => Err(e),
                Ok(q) => Ok(qualifiers.push(q)),
            },
        }
    }
}

fn result_to_db(r: &TournamentResult) -> (out: ResultRecord)
    ensures
        out@ == result_record(r@),
{
    ResultRecord {
        slot: r.slot.code().to_string(),
        slot_label: r.slot_label.clone(),
        played: r.played.code().to_string(),
        event_code: r.event_code.clone(),
        event_name: r.event_name.clone(),
        round: r.round.clone(),
        points: r.points as i64,
        substituted: r.substituted,
    }
}

fn result_from_db(r: &ResultRecord) -> (out: Result<TournamentResult, StoreError>)
    ensures
        match out {
            Ok(x) => stored_result(r@) == Ok::<ResultModel, StoreErrorModel>(x@),
            Err(e) => stored_result(r@) == Err::<ResultModel, StoreErrorModel>(e@),
        },
{
    let slot = match Slot::from_code(r.slot.as_str()) {
        Some(s) => s,
        None => {
            return Err(StoreError::UnknownSlot { code: r.slot.clone() });
        },
    };
    let played = match Played::from_code(r.played.as_str()) {
        Some(p) => p,
        None => {
            return Err(StoreError::UnknownPlayed { code: r.played.clone() });
        },
    };
    Ok(
        TournamentResult {
            slot,
            slot_label: r.slot_label.clone(),
            played,
            event_code: r.event_code.clone(),
            event_name: r.event_name.clone(),
            round: r.round.clone(),
            points: to_count(r.points),
            substituted: r.substituted,
        },
    )
}

/// The columns of a line of the standings.
pub fn race_row_to_db(row: &RaceRow) -> (r: RaceRecord)
    ensures
        r@ == race_record(row@),
{
    let mut results: Vec<ResultRecord> = Vec::new();
    let mut i: usize = 0;
    while i < row.results.len()
        invariant
            i <= row.results@.len(),
            results@.len() == i,
            forall|k: int|
                0 <= k < i ==> (#[trigger] results@[k])@ == result_record(row.results@[k]@),
        decreases row.results@.len() - i,
    {
        results.push(result_to_db(&row.results[i]));
        i += 1;
    }
    assert(result_records_model(results@) =~= row@.results.map_values(
        |r: ResultModel| result_record(r),
    ));
    RaceRecord {
        rank: row.rank as i64,
        player_code: row.player_code.clone(),
        player_name: row.player_name.clone(),
        country: row.country.clone(),
        race_points: row.race_points as i64,
        tournaments_played: widen(row.tournaments_played),
        titles: widen(row.titles),
        results,
    }
}

fn race_rows_to_db(rows: &Vec<RaceRow>) -> (r: Vec<RaceRecord>)
    ensures
        race_records_model(r@) == race_records(rows_model(rows@)),
{
    let mut records: Vec<RaceRecord> = Vec::new();
    let mut i: usize = 0;
    while i < rows.len()
        invariant
            i <= rows@.len(),
            records@.len() == i,
            forall|k: int| 0 <= k < i ==> (#[trigger] records@[k])@ == race_record(rows@[k]@),
        decreases rows@.len() - i,
    {
        records.push(race_row_to_db(&rows[i]));
        i += 1;
    }
    assert(race_records_model(records@) =~= race_records(rows_model(rows@)));
    records
}

/// A failure among the first entries is the failure of all of them.
proof fn first_bad_result_stands(records: Seq<ResultRecordModel>, n: int)
    requires
        0 <= n <= records.len(),
        stored_results(records.take(n)) is Err,
    ensures
        stored_results(records) == stored_results(records.take(n)),
    decreases records.len(),
{
    if n == records.len() {
        assert(records.take(n) =~= records);
    } else {
        assert(records.drop_last().take(n) =~= records.take(n));
        first_bad_result_stands(records.drop_last(), n);
    }
}

/// The line of the standings that columns give.
pub fn race_row_from_db(record: &RaceRecord) -> (r: Result<RaceRow, StoreError>)
    ensures
        match r {
            Ok(row) => stored_row(record@) == Ok::<RowModel, StoreErrorModel>(row@),
            Err(e) => stored_row(record@) == Err::<RowModel, StoreErrorModel>(e@),
        },
{
    let ghost all = record@.results;
    let mut results: Vec<TournamentResult> = Vec::new();
    let mut i: usize = 0;
    assert(results_model(results@) =~= seq![]);
    while i < record.results.len()
        invariant
            i <= record.results@.len(),
            all == result_records_model(record.results@),
            all == record@.results,
            stored_results(all.take(i as int)) == Ok::<Seq<ResultModel>, StoreErrorModel>(
                results_model(results@),
            ),
        decreases record.results@.len() - i,
    {
        let ghost taken = all.take(i + 1);
        assert(taken.drop_last() =~= all.take(i as int));
        assert(taken.last() == record.results@[i as int]@);
        match result_from_db(&record.results[i]) {
            Ok(x) => {
                let ghost done = results@;
                results.push(x);
                assert(results_model(results@) =~= results_model(done).push(x@));
            },
            Err(e) => {
                proof {
                    first_bad_result_stands(all, i + 1);
                }
                return Err(e);
            },
        }
        i += 1;
    }
    assert(all.take(i as int) =~= all);
    Ok(
        RaceRow {
            rank: to_count(record.rank),
            movement: None,
            player_code: record.player_code.clone(),
            player_name: record.player_name.clone(),
            country: record.country.clone(),
            race_points: to_count(record.race_points),
            results,
            tournaments_played: to_count_opt(record.tournaments_played),
            titles: to_count_opt(record.titles),
        },
    )
}

fn qualifier_to_db(q: &OfficialQualifier) -> (r: QualifierRecord)
    ensures
        r@ == qualifier_record(q@),
{
    QualifierRecord {
        player_code: q.player_code.clone(),
        year: q.qualified_on.year,
        month: q.qualified_on.month,
        day: q.qualified_on.day,
        source_url: q.source_url.clone(),
    }
}

fn qualifier_from_db(record: &QualifierRecord) -> (r: Result<OfficialQualifier, StoreError>)
    ensures
        match r {
            Ok(q) => stored_qualifier(record@) == Ok::<QualifierModel, StoreErrorModel>(q@),
            Err(e) => stored_qualifier(record@) == Err::<QualifierModel, StoreErrorModel>(e@),
        },
{
    let bad = StoreError::BadDate { year: record.year, month: record.month, day: record.day };
    if record.month < 1 || record.month > 12 {
        return Err(bad);
    }
    match from_calendar_date(record.year, record.month, record.day) {
        Some(qualified_on) => Ok(
            OfficialQualifier {
                player_code: record.player_code.clone(),
                qualified_on,
                source_url: record.source_url.clone(),
            },
        ),
        None => Err(bad),
    }
}

/// The columns of a snapshot: its own, those of its lines, and those of the
/// announced qualifications.
#[derive(Debug, Clone)]
pub struct StoredSnapshot {
    pub meta: StoredMeta,
    pub rows: Vec<RaceRecord>,
    pub qualifiers: Vec<QualifierRecord>,
}

/// What a `StoredSnapshot` says.
pub struct ColumnsModel {
    pub meta: MetaModel,
    pub rows: Seq<RaceRecordModel>,
    pub qualifiers: Seq<QualifierRecordModel>,
}

impl View for StoredSnapshot {
    type V = ColumnsModel;

    open spec fn view(&self) -> ColumnsModel {
        ColumnsModel {
            meta: self.meta@,
            rows: race_records_model(self.rows@),
            qualifiers: qualifier_records_model(self.qualifiers@),
        }
    }
}

/// The columns of a snapshot.
pub open spec fn columns_of(s: SnapshotModel) -> ColumnsModel {
    ColumnsModel {
        meta: MetaModel {
            created_at: rfc3339_text(s.generated_at),
            source_as_of: rfc3339_text(s.source_as_of),
            source: s.source,
            parser_version: s.parser_version,
        },
        rows: race_records(s.rows),
        qualifiers: s.qualifiers.map_values(|q: QualifierModel| qualifier_record(q)),
    }
}

/// The snapshot that stored columns give.
pub open spec fn restored(d: ColumnsModel) -> Result<SnapshotModel, StoreErrorModel> {
    match stored_rows(d.rows) {
        Err(e) => Err(e),
        Ok(rows) => match stored_qualifiers(d.qualifiers) {
            Err(e) => Err(e),
            Ok(qualifiers) => match stamp_read(d.meta.source_as_of) {
                Err(e) => Err(e),
                Ok(source_as_of) => match stamp_read(d.meta.created_at) {
                    Err(e) => Err(e),
                    Ok(generated_at) => Ok(
                        SnapshotModel {
                            source_as_of,
                            generated_at,
                            source: d.meta.source,
                            parser_version: d.meta.parser_version,
                            rows,
                            qualifiers,
                        },
                    ),
                },
            },
        },
    }
}

/// A table without its movement.
pub open spec fn without_movement(rows: Seq<RowModel>) -> Seq<RowModel> {
    rows.map_values(|row: RowModel| RowModel { movement: None, ..row })
}

/// A snapshot without the movement in its table.
pub open spec fn unmoved(s: SnapshotModel) -> SnapshotModel {
    SnapshotModel { rows: without_movement(s.rows), ..s }
}

/// The moments of a snapshot are read back from the texts they are stored as.
pub open spec fn stamped(s: SnapshotModel) -> bool {
    reads_back(s.generated_at) && reads_back(s.source_as_of)
}

/// A ledger survives being stored and read back.
proof fn results_round_trip(results: Seq<ResultModel>)
    ensures
        stored_results(results.map_values(|r: ResultModel| result_record(r))) == Ok::<
            Seq<ResultModel>,
            StoreErrorModel,
        >(results),
    decreases results.len(),
{
    let records = results.map_values(|r: ResultModel| result_record(r));
    if results.len() > 0 {
        results_round_trip(results.drop_last());
        assert(records.drop_last() =~= results.drop_last().map_values(
            |r: ResultModel| result_record(r),
        ));
        slot_codes_round_trip(results.last().slot, slot_code(results.last().slot));
        played_codes_round_trip(results.last().played, played_code(results.last().played));
        assert(records.last() == result_record(results.last()));
        assert(stored_result(records.last()) == Ok::<ResultModel, StoreErrorModel>(
            results.last(),
        ));
        assert(results.drop_last().push(results.last()) =~= results);
    } else {
        assert(results =~= seq![]);
    }
}

/// A table survives being stored and read back, but for the movement, which is
/// not stored.
pub proof fn tables_round_trip(rows: Seq<RowModel>)
    ensures
        stored_rows(race_records(rows)) == Ok::<Seq<RowModel>, StoreErrorModel>(
            without_movement(rows),
        ),
    decreases rows.len(),
{
    let records = race_records(rows);
    if rows.len() > 0 {
        let front = rows.drop_last();
        tables_round_trip(front);
        assert(records.drop_last() =~= race_records(front));
        results_round_trip(rows.last().results);
        assert(records.last() == race_record(rows.last()));
        let bare = RowModel { movement: None, ..rows.last() };
        assert(stored_row(records.last()) == Ok::<RowModel, StoreErrorModel>(bare));
        assert(without_movement(front).push(bare) =~= without_movement(rows));
    } else {
        assert(without_movement(rows) =~= seq![]);
    }
}

/// Announced qualifications survive being stored and read back.
pub proof fn qualifiers_round_trip(qualifiers: Seq<QualifierModel>)
    requires
        forall|i: int|
            0 <= i < qualifiers.len() ==> (#[trigger] qualifiers[i]).qualified_on.valid(),
    ensures
        stored_qualifiers(qualifiers.map_values(|q: QualifierModel| qualifier_record(q))) == Ok::<
            Seq<QualifierModel>,
            StoreErrorModel,
        >(qualifiers),
    decreases qualifiers.len(),
{
    let records = qualifiers.map_values(|q: QualifierModel| qualifier_record(q));
    if qualifiers.len() > 0 {
        let front = qualifiers.drop_last();
        assert forall|i: int| 0 <= i < front.len() implies (
        #[trigger] front[i]).qualified_on.valid() by {
            assert(front[i] == qualifiers[i]);
        }
        qualifiers_round_trip(front);
        assert(records.drop_last() =~= front.map_values(|q: QualifierModel| qualifier_record(q)));
        assert(qualifiers[qualifiers.len() - 1].qualified_on.valid());
        assert(records.last() == qualifier_record(qualifiers.last()));
        assert(front.push(qualifiers.last()) =~= qualifiers);
    } else {
        assert(qualifiers =~= seq![]);
    }
}

/// A snapshot survives being stored and read back, but for the movement.
pub proof fn snapshots_round_trip(s: SnapshotModel)
    ensures
        stamped(s) && dated(s) ==> restored(columns_of(s)) == Ok::<SnapshotModel, StoreErrorModel>(
            unmoved(s),
        ),
{
    if stamped(s) && dated(s) {
        tables_round_trip(s.rows);
        qualifiers_round_trip(s.qualifiers);
    }
}

/// The columns of a snapshot. Reading them back gives the snapshot without its
/// movement, as long as its announcements carry dates that exist.
pub fn store(snapshot: &Snapshot) -> (r: Result<StoredSnapshot, StoreError>)
    requires
        snapshot.generated_at.valid(),
        snapshot.source_as_of.valid(),
    ensures
        match r {
            Ok(d) => {
                &&& rfc3339_writable(snapshot.generated_at)
                &&& rfc3339_writable(snapshot.source_as_of)
                &&& d@ == columns_of(snapshot@)
                &&& stamped(snapshot@)
                &&& dated(snapshot@) ==> restored(d@) == Ok::<SnapshotModel, StoreErrorModel>(
                    unmoved(snapshot@),
                )
            },
            Err(e) => e@ == StoreErrorModel::UnwritableTimestamp && !(rfc3339_writable(
                snapshot.generated_at,
            ) && rfc3339_writable(snapshot.source_as_of)),
        },
{
    let meta = match meta_of(
        &snapshot.generated_at,
        &snapshot.source_as_of,
        &snapshot.source,
        &snapshot.parser_version,
    ) {
        Ok(m) => m,
        Err(e) => {
            return Err(e);
        },
    };
    let rows = race_rows_to_db(&snapshot.rows);
    let mut qualifiers: Vec<QualifierRecord> = Vec::new();
    let mut j: usize = 0;
    while j < snapshot.qualifiers.len()
        invariant
            j <= snapshot.qualifiers@.len(),
            qualifiers@.len() == j,
            forall|k: int|
                0 <= k < j ==> (#[trigger] qualifiers@[k])@ == qualifier_record(
                    snapshot.qualifiers@[k]@,
                ),
        decreases snapshot.qualifiers@.len() - j,
    {
        qualifiers.push(qualifier_to_db(&snapshot.qualifiers[j]));
        j += 1;
    }
    assert(qualifier_records_model(qualifiers@) =~= columns_of(snapshot@).qualifiers);
    proof {
        snapshots_round_trip(snapshot@);
    }
    Ok(StoredSnapshot { meta, rows, qualifiers })
}

/// Nothing is lost in storing what parses from an article.
pub proof fn a_parsed_article_is_storable(
    wikitext: Seq<char>,
    label: Seq<char>,
    season: i32,
    now: Timestamp,
)
    ensures
        snapshot_in(wikitext, label, season, now) matches Ok(s) ==> dated(s) && unmoved(s) == s,
{
    a_parsed_snapshot_is_trustworthy(wikitext, label, season, now);
    if let Ok(s) = snapshot_in(wikitext, label, season, now) {
        assert forall|i: int| 0 <= i < s.rows.len() implies without_movement(s.rows)[i]
            == s.rows[i] by {
            assert(honest_row(s.rows[i]));
        }
        assert(without_movement(s.rows) =~= s.rows);
        assert forall|i: int| 0 <= i < s.qualifiers.len() implies (
        #[trigger] s.qualifiers[i]).qualified_on.valid() by {
            assert(honest_qualifier(s.qualifiers[i], season));
        }
    }
}

proof fn first_bad_row_stands(records: Seq<RaceRecordModel>, n: int)
    requires
        0 <= n <= records.len(),
        stored_rows(records.take(n)) is Err,
    ensures
        stored_rows(records) == stored_rows(records.take(n)),
    decreases records.len(),
{
    if n == records.len() {
        assert(records.take(n) =~= records);
    } else {
        assert(records.drop_last().take(n) =~= records.take(n));
        first_bad_row_stands(records.drop_last(), n);
    }
}

proof fn first_bad_qualifier_stands(records: Seq<QualifierRecordModel>, n: int)
    requires
        0 <= n <= records.len(),
        stored_qualifiers(records.take(n)) is Err,
    ensures
        stored_qualifiers(records) == stored_qualifiers(records.take(n)),
    decreases records.len(),
{
    if n == records.len() {
        assert(records.take(n) =~= records);
    } else {
        assert(records.drop_last().take(n) =~= records.take(n));
        first_bad_qualifier_stands(records.drop_last(), n);
    }
}

fn load_rows(records: &Vec<RaceRecord>) -> (r: Result<Vec<RaceRow>, StoreError>)
    ensures
        match r {
            Ok(rows) => stored_rows(race_records_model(records@)) == Ok::<
                Seq<RowModel>,
                StoreErrorModel,
            >(rows_model(rows@)),
            Err(e) => stored_rows(race_records_model(records@)) == Err::<
                Seq<RowModel>,
                StoreErrorModel,
            >(e@),
        },
{
    let ghost all = race_records_model(records@);
    let mut rows: Vec<RaceRow> = Vec::new();
    let mut i: usize = 0;
    assert(rows_model(rows@) =~= seq![]);
    while i < records.len()
        invariant
            i <= records@.len(),
            all == race_records_model(records@),
            stored_rows(all.take(i as int)) == Ok::<Seq<RowModel>, StoreErrorModel>(
                rows_model(rows@),
            ),
        decreases records@.len() - i,
    {
        let ghost taken = all.take(i + 1);
        assert(taken.drop_last() =~= all.take(i as int));
        assert(taken.last() == records@[i as int]@);
        match race_row_from_db(&records[i]) {
            Ok(row) => {
                let ghost done = rows@;
                rows.push(row);
                assert(rows_model(rows@) =~= rows_model(done).push(row@));
            },
            Err(e) => {
                proof {
                    first_bad_row_stands(all, i + 1);
                }
                return Err(e);
            },
        }
        i += 1;
    }
    assert(all.take(i as int) =~= all);
    Ok(rows)
}

fn load_qualifiers(records: &Vec<QualifierRecord>) -> (r: Result<
    Vec<OfficialQualifier>,
    StoreError,
>)
    ensures
        match r {
            Ok(q) => stored_qualifiers(qualifier_records_model(records@)) == Ok::<
                Seq<QualifierModel>,
                StoreErrorModel,
            >(qualifiers_model(q@)),
            Err(e) => stored_qualifiers(qualifier_records_model(records@)) == Err::<
                Seq<QualifierModel>,
                StoreErrorModel,
            >(e@),
        },
{
    let ghost all = qualifier_records_model(records@);
    let mut out: Vec<OfficialQualifier> = Vec::new();
    let mut i: usize = 0;
    assert(qualifiers_model(out@) =~= seq![]);
    while i < records.len()
        invariant
            i <= records@.len(),
            all == qualifier_records_model(records@),
            stored_qualifiers(all.take(i as int)) == Ok::<Seq<QualifierModel>, StoreErrorModel>(
                qualifiers_model(out@),
            ),
        decreases records@.len() - i,
    {
        let ghost taken = all.take(i + 1);
        assert(taken.drop_last() =~= all.take(i as int));
        assert(taken.last() == records@[i as int]@);
        match qualifier_from_db(&records[i]) {
            Ok(q) => {
                let ghost done = out@;
                out.push(q);
                assert(qualifiers_model(out@) =~= qualifiers_model(done).push(q@));
            },
            Err(e) => {
                proof {
                    first_bad_qualifier_stands(all, i + 1);
                }
                return Err(e);
            },
        }
        i += 1;
    }
    assert(all.take(i as int) =~= all);
    Ok(out)
}

/// The snapshot that stored columns give.
pub fn load(stored: &StoredSnapshot) -> (r: Result<Snapshot, StoreError>)
    ensures
        match r {
            Ok(s) => restored(stored@) == Ok::<SnapshotModel, StoreErrorModel>(s@)
                && s.source_as_of.valid() && s.generated_at.valid(),
            Err(e) => restored(stored@) == Err::<SnapshotModel, StoreErrorModel>(e@),
        },
{
    let rows = match load_rows(&stored.rows) {
        Ok(rows) => rows,
        Err(e) => {
            return Err(e);
        },
    };
    let qualifiers = match load_qualifiers(&stored.qualifiers) {
        Ok(q) => q,
        Err(e) => {
            return Err(e);
        },
    };
    let source_as_of = match parse_ts(stored.meta.source_as_of.as_str()) {
        Ok(t) => t,
        Err(e) => {
            return Err(e);
        },
    };
    let generated_at = match parse_ts(stored.meta.created_at.as_str()) {
        Ok(t) => t,
        Err(e) => {
            return Err(e);
        },
    };
    Ok(
        Snapshot {
            source_as_of,
            generated_at,
            source: stored.meta.source.clone(),
            parser_version: stored.meta.parser_version.clone(),
            rows,
            qualifiers,
        },
    )
}

// ---------------------------------------------------------------------------
// Movement between two stored tables
// ---------------------------------------------------------------------------

/// The rank in the first row from `from` on that has the code.
pub open spec fn rank_from(rows: Seq<RowModel>, code: Seq<char>, from: int) -> Option<u32>
    decreases rows.len() - from,
{
    if from >= rows.len() {
        None
    } else if rows[from].player_code == code {
        Some(rows[from].rank)
    } else {
        rank_from(rows, code, from + 1)
    }
}

/// A number of places that an `i32` holds.
pub open spec fn countable(places: int) -> bool {
    i32::MIN <= places <= i32::MAX
}

/// Places that a row has gained on the previous table; none where the previous
/// table did not have the player, or where an `i32` cannot hold the number.
pub open spec fn places_gained(previous: Seq<RowModel>, row: RowModel) -> Option<i32> {
    match rank_from(previous, row.player_code, 0) {
        Some(before) => if countable(before - row.rank) {
            Some((before - row.rank) as i32)
        } else {
            None
        },
        None => None,
    }
}

/// A row with its movement.
pub open spec fn moved(previous: Seq<RowModel>, row: RowModel) -> RowModel {
    RowModel { movement: places_gained(previous, row), ..row }
}

fn find_rank(rows: &Vec<RaceRow>, code: &str) -> (r: Option<u32>)
    ensures
        r == rank_from(rows_model(rows@), code@, 0),
{
    let ghost all = rows_model(rows@);
    let mut i: usize = 0;
    while i < rows.len()
        invariant
            i <= rows@.len(),
            all == rows_model(rows@),
            rank_from(all, code@, 0) == rank_from(all, code@, i as int),
        decreases rows@.len() - i,
    {
        assert(all[i as int] == rows@[i as int]@);
        if same_text(rows[i].player_code.as_str(), code) {
            return Some(rows[i].rank);
        }
        i += 1;
    }
    None
}

/// Derive the movement of every row from the previous stored table.
pub fn derive_movement(rows: &mut Vec<RaceRow>, previous: &Vec<RaceRow>)
    ensures
        rows_model(final(rows)@) == rows_model(old(rows)@).map_values(
            |row: RowModel| moved(rows_model(previous@), row),
        ),
{
    let ghost start = rows_model(rows@);
    let ghost before = rows_model(previous@);
    let mut i: usize = 0;
    while i < rows.len()
        invariant
            i <= rows@.len(),
            start == rows_model(old(rows)@),
            start.len() == rows@.len(),
            before == rows_model(previous@),
            forall|k: int|
                0 <= k < rows@.len() ==> (#[trigger] rows@[k])@ == (if k < i {
                    moved(before, start[k])
                } else {
                    start[k]
                }),
        decreases rows@.len() - i,
    {
        assert(rows@[i as int]@ == start[i as int]);
        let movement = match find_rank(previous, rows[i].player_code.as_str()) {
            Some(n) => {
                let places: i64 = n as i64 - rows[i].rank as i64;
                if i32::MIN as i64 <= places && places <= i32::MAX as i64 {
                    Some(places as i32)
                } else {
                    None
                }
            },
            None => None,
        };
        rows[i].movement = movement;
        i += 1;
    }
    assert(rows_model(rows@) =~= start.map_values(|row: RowModel| moved(before, row)));
}

/// The movement of a row whose rank is an `i32` has a size that can be shown.
pub proof fn movement_has_a_size(previous: Seq<RowModel>, row: RowModel)
    requires
        row.rank <= i32::MAX,
    ensures
        moved(previous, row).movement != Some(i32::MIN),
{
}

proof fn rank_is_of_a_row(rows: Seq<RowModel>, code: Seq<char>, from: int)
    requires
        0 <= from,
    ensures
        rank_from(rows, code, from) matches Some(n) ==> exists|i: int|
            from <= i < rows.len() && (#[trigger] rows[i]).player_code == code && rows[i].rank == n,
    decreases rows.len() - from,
{
    if from < rows.len() && rows[from].player_code != code {
        rank_is_of_a_row(rows, code, from + 1);
    }
}

/// Against itself, a table in which each player stands once does not move.
pub proof fn an_unchanged_table_does_not_move(rows: Seq<RowModel>, i: int)
    requires
        no_duplicates(rows),
        0 <= i < rows.len(),
    ensures
        moved(rows, rows[i]).movement == Some(0i32),
{
    rank_is_of_a_row(rows, rows[i].player_code, 0);
    rank_is_found(rows, rows[i].player_code, 0, i);
    let n = rank_from(rows, rows[i].player_code, 0)->0;
    let k = choose|k: int|
        0 <= k < rows.len() && (#[trigger] rows[k]).player_code == rows[i].player_code
            && rows[k].rank == n;
    if k < i {
        assert(rows[k].player_code != rows[i].player_code);
    } else if i < k {
        assert(rows[i].player_code != rows[k].player_code);
    }
}

proof fn rank_is_found(rows: Seq<RowModel>, code: Seq<char>, from: int, i: int)
    requires
        0 <= from <= i < rows.len(),
        rows[i].player_code == code,
    ensures
        rank_from(rows, code, from) is Some,
    decreases i - from,
{
    if rows[from].player_code != code {
        rank_is_found(rows, code, from + 1, i);
    }
}

// ---------------------------------------------------------------------------
// Publishing a snapshot, and what is then current
// ---------------------------------------------------------------------------

/// The hash of a table's canonical text.
pub open spec fn rows_hash(rows: Seq<RowModel>) -> Seq<char> {
    text_digest(canonical_text(race_records(rows)))
}

/// Hash of the normalized rows only: a re-fetch whose visible content is
/// identical (even with a fresher page timestamp) creates no new snapshot.
pub fn content_hash(rows: &Vec<RaceRow>) -> (r: String)
    ensures
        r@ == rows_hash(rows_model(rows@)),
        r@.len() == 64,
{
    let records = race_rows_to_db(rows);
    hex_digest(canonical(&records).as_str())
}

/// Two tables have the same canonical text exactly when they agree in all but
/// movement.
pub proof fn rows_are_told_apart(a: Seq<RowModel>, b: Seq<RowModel>)
    ensures
        canonical_text(race_records(a)) == canonical_text(race_records(b)) <==> without_movement(a)
            == without_movement(b),
{
    tables_are_told_apart(race_records(a), race_records(b));
    tables_round_trip(a);
    tables_round_trip(b);
    assert(race_records(without_movement(a)) =~= race_records(a));
    assert(race_records(without_movement(b)) =~= race_records(b));
}

/// What is to be done to publish a candidate.
#[derive(Debug, Clone)]
pub enum Publishing {
    /// The stored snapshot stands and nothing is written.
    Keep(PublishOutcome),
    /// Write these columns and this hash under the new version, and move the
    /// current pointer to it.
    Write { outcome: PublishOutcome, hash: String, stored: StoredSnapshot },
}

/// Publish a validated candidate, given the version and the hash that are
/// current: write it as a new immutable snapshot, unless its rows are what is
/// already current.
pub fn publish_if_changed(current: &Option<(i64, String)>, snapshot: &Snapshot) -> (r: Result<
    Publishing,
    StoreError,
>)
    requires
        versions_remain(*current),
        snapshot.generated_at.valid(),
        snapshot.source_as_of.valid(),
    ensures
        match r {
            Ok(Publishing::Keep(kept)) => publication(
                current_model(*current),
                rows_hash(snapshot@.rows),
            ) == Publication::Keep(kept),
            Ok(Publishing::Write { outcome, hash, stored }) => {
                &&& publication(current_model(*current), rows_hash(snapshot@.rows))
                    == Publication::Write(outcome)
                &&& rfc3339_writable(snapshot.generated_at)
                &&& rfc3339_writable(snapshot.source_as_of)
                &&& hash@ == rows_hash(snapshot@.rows)
                &&& stored@ == columns_of(snapshot@)
                &&& stamped(snapshot@)
            },
            Err(e) => {
                &&& publication(current_model(*current), rows_hash(snapshot@.rows)) is Write
                &&& e@ == StoreErrorModel::UnwritableTimestamp
                &&& !(rfc3339_writable(snapshot.generated_at) && rfc3339_writable(
                    snapshot.source_as_of,
                ))
            },
        },
{
    let hash = content_hash(&snapshot.rows);
    match decide_publication(current, hash.as_str()) {
        Publication::Keep(kept) => Ok(Publishing::Keep(kept)),
        Publication::Write(outcome) => match store(snapshot) {
            Ok(stored) => Ok(Publishing::Write { outcome, hash, stored }),
            Err(e) => Err(e),
        },
    }
}

/// What is to be done to publish a live candidate.
#[derive(Debug, Clone)]
pub enum LivePublishing {
    /// The stored snapshot stands and nothing is written.
    Keep(PublishOutcome),
    /// Write these columns and this hash under the new version, and move the
    /// current pointer to it.
    Write { outcome: PublishOutcome, hash: String, meta: StoredMeta, rows: Vec<LiveRecord> },
}

/// The same for a snapshot of the live race page, whose rows carry the movement
/// that the page shows.
pub fn publish_live_if_changed(
    current: &Option<(i64, String)>,
    snapshot: &LiveSnapshot,
) -> (r: Result<LivePublishing, StoreError>)
    requires
        versions_remain(*current),
        snapshot.generated_at.valid(),
        snapshot.source_as_of.valid(),
    ensures
        match r {
            Ok(LivePublishing::Keep(kept)) => publication(
                current_model(*current),
                live_rows_hash(snapshot@.rows),
            ) == Publication::Keep(kept),
            Ok(LivePublishing::Write { outcome, hash, meta, rows }) => {
                &&& publication(current_model(*current), live_rows_hash(snapshot@.rows))
                    == Publication::Write(outcome)
                &&& rfc3339_writable(snapshot.generated_at)
                &&& rfc3339_writable(snapshot.source_as_of)
                &&& hash@ == live_rows_hash(snapshot@.rows)
                &&& meta@ == live_meta(snapshot@)
                &&& live_stamped(snapshot@)
                &&& live_records_model(rows@) == live_records(snapshot@.rows)
                &&& live_restored(meta@, live_records_model(rows@)) == Ok::<
                    LiveSnapshotModel,
                    StoreErrorModel,
                >(snapshot@)
            },
            Err(e) => {
                &&& publication(current_model(*current), live_rows_hash(snapshot@.rows)) is Write
                &&& e@ == StoreErrorModel::UnwritableTimestamp
                &&& !(rfc3339_writable(snapshot.generated_at) && rfc3339_writable(
                    snapshot.source_as_of,
                ))
            },
        },
{
    let hash = live_content_hash(&snapshot.rows);
    match decide_publication(current, hash.as_str()) {
        Publication::Keep(kept) => Ok(LivePublishing::Keep(kept)),
        Publication::Write(outcome) => match store_live(snapshot) {
            Ok((meta, rows)) => Ok(LivePublishing::Write { outcome, hash, meta, rows }),
            Err(e) => Err(e),
        },
    }
}

/// The snapshot that is current, with the movement since the table that was
/// current before it, if there was one.
pub open spec fn current_with(d: ColumnsModel, previous: Option<Seq<RaceRecordModel>>) -> Result<
    SnapshotModel,
    StoreErrorModel,
> {
    match restored(d) {
        Err(e) => Err(e),
        Ok(s) => match previous {
            None => Ok(s),
            Some(records) => match stored_rows(records) {
                Err(e) => Err(e),
                Ok(before) => Ok(
                    SnapshotModel {
                        rows: s.rows.map_values(|row: RowModel| moved(before, row)),
                        ..s
                    },
                ),
            },
        },
    }
}

/// What the rows that were current before say, if there were any.
pub open spec fn previous_model(previous: Option<Vec<RaceRecord>>) -> Option<
    Seq<RaceRecordModel>,
> {
    match previous {
        Some(records) => Some(race_records_model(records@)),
        None => None,
    }
}

/// What the current pointer designates: nothing in a fresh store, else a version
/// and its snapshot.
pub open spec fn current_loaded(
    designated: Option<(i64, ColumnsModel)>,
    previous: Option<Seq<RaceRecordModel>>,
) -> Result<Option<(i64, SnapshotModel)>, StoreErrorModel> {
    match designated {
        None => Ok(None),
        Some((version, d)) => match current_with(d, previous) {
            Err(e) => Err(e),
            Ok(s) => Ok(Some((version, s))),
        },
    }
}

/// What the current pointer designates, as columns.
pub open spec fn designated_model(stored: Option<(i64, StoredSnapshot)>) -> Option<
    (i64, ColumnsModel),
> {
    match stored {
        Some((version, d)) => Some((version, d@)),
        None => None,
    }
}

/// A version and what its snapshot says, if there is one.
pub open spec fn loaded_model(loaded: Option<(i64, Snapshot)>) -> Option<(i64, SnapshotModel)> {
    match loaded {
        Some((version, s)) => Some((version, s@)),
        None => None,
    }
}

/// The snapshot the current pointer designates, with the movement since the
/// table that was current before it, if there was one; or None on a fresh
/// database.
pub fn load_current(
    stored: &Option<(i64, StoredSnapshot)>,
    previous: &Option<Vec<RaceRecord>>,
) -> (r: Result<Option<(i64, Snapshot)>, StoreError>)
    ensures
        match r {
            Ok(loaded) => {
                &&& current_loaded(designated_model(*stored), previous_model(*previous)) == Ok::<
                    Option<(i64, SnapshotModel)>,
                    StoreErrorModel,
                >(loaded_model(loaded))
                &&& loaded matches Some((_, s)) ==> s.source_as_of.valid()
                    && s.generated_at.valid()
            },
            Err(e) => current_loaded(designated_model(*stored), previous_model(*previous)) == Err::<
                Option<(i64, SnapshotModel)>,
                StoreErrorModel,
            >(e@),
        },
{
    let (version, columns) = match stored {
        Some((version, columns)) => (*version, columns),
        None => {
            return Ok(None);
        },
    };
    let mut s = match load(columns) {
        Ok(s) => s,
        Err(e) => {
            return Err(e);
        },
    };
    match previous {
        None => {},
        Some(records) => {
            let before = match load_rows(records) {
                Ok(rows) => rows,
                Err(e) => {
                    return Err(e);
                },
            };
            derive_movement(&mut s.rows, &before);
        },
    }
    Ok(Some((version, s)))
}

/// One stored version.
pub struct Shelved {
    pub version: i64,
    pub hash: Seq<char>,
    pub columns: ColumnsModel,
}

/// What a store holds once these snapshots have been written, first to last.
pub open spec fn shelf(written: Seq<SnapshotModel>) -> Seq<Shelved> {
    Seq::new(
        written.len(),
        |i: int|
            Shelved {
                version: (i + 1) as i64,
                hash: rows_hash(written[i].rows),
                columns: columns_of(written[i]),
            },
    )
}

/// The version and the hash that are current: those last written.
pub open spec fn current_of(held: Seq<Shelved>) -> Option<(i64, Seq<char>)> {
    if held.len() == 0 {
        None
    } else {
        Some((held.last().version, held.last().hash))
    }
}

/// What a store holds after a snapshot has been published to it.
pub open spec fn published(held: Seq<Shelved>, s: SnapshotModel) -> (Seq<Shelved>, PublishOutcome) {
    match publication(current_of(held), rows_hash(s.rows)) {
        Publication::Keep(outcome) => (held, outcome),
        Publication::Write(outcome) => (
            held.push(
                Shelved {
                    version: outcome.version,
                    hash: rows_hash(s.rows),
                    columns: columns_of(s),
                },
            ),
            outcome,
        ),
    }
}

/// What a store gives as current.
pub open spec fn current_snapshot(held: Seq<Shelved>) -> Result<
    Option<(i64, SnapshotModel)>,
    StoreErrorModel,
> {
    current_loaded(
        if held.len() == 0 {
            None
        } else {
            Some((held.last().version, held.last().columns))
        },
        if held.len() < 2 {
            None
        } else {
            Some(held[held.len() - 2].columns.rows)
        },
    )
}

/// Publishing rows that agree with the current ones in all but movement writes
/// nothing and keeps the version; publishing any others writes a version larger
/// than every earlier one, the first of a fresh store being one. This is so as
/// long as the current rows and the candidate's do not differ and hash alike.
pub proof fn content_is_published_once(written: Seq<SnapshotModel>, s: SnapshotModel)
    requires
        written.len() < i64::MAX,
    ensures
        ({
            let (after, outcome) = published(shelf(written), s);
            let same = written.len() > 0 && without_movement(written.last().rows)
                == without_movement(s.rows);
            let collide = written.len() > 0 && !same && rows_hash(written.last().rows)
                == rows_hash(s.rows);
            !collide ==> {
                &&& !outcome.created <==> same
                &&& same ==> outcome.version == written.len() && after == shelf(written)
                &&& !same ==> outcome.version == written.len() + 1 && after == shelf(
                    written.push(s),
                )
            }
        }),
        forall|i: int|
            0 <= i < written.len() ==> (#[trigger] shelf(written)[i]).version < written.len() + 1,
{
    let held = shelf(written);
    let (after, outcome) = published(held, s);
    if written.len() > 0 {
        rows_are_told_apart(written.last().rows, s.rows);
        assert(held.last().version == written.len());
        assert(held.last().hash == rows_hash(written.last().rows));
    }
    if outcome.created {
        assert(after =~= shelf(written.push(s)));
    }
}

/// The snapshot last written, as it is current: the first carries no movement,
/// each later one the movement since the table before it.
pub open spec fn last_written(written: Seq<SnapshotModel>) -> SnapshotModel {
    if written.len() == 1 {
        unmoved(written.last())
    } else {
        SnapshotModel {
            rows: written.last().rows.map_values(
                |row: RowModel| moved(written[written.len() - 2].rows, row),
            ),
            ..written.last()
        }
    }
}

/// What is current is the snapshot last written, under its version.
pub proof fn the_last_written_is_current(written: Seq<SnapshotModel>)
    requires
        0 < written.len() <= i64::MAX,
        dated(written.last()),
    ensures
        stamped(written.last()) ==> current_snapshot(shelf(written)) == Ok::<
            Option<(i64, SnapshotModel)>,
            StoreErrorModel,
        >(Some((written.len() as i64, last_written(written)))),
{
    let s = written.last();
    let held = shelf(written);
    assert(held.last().columns == columns_of(s));
    snapshots_round_trip(s);
    if stamped(s) && written.len() >= 2 {
        let p = written[written.len() - 2].rows;
        let before = without_movement(p);
        assert(held[held.len() - 2].columns.rows == race_records(p));
        tables_round_trip(p);
        let bare = without_movement(s.rows);
        assert forall|i: int| 0 <= i < s.rows.len() implies moved(before, #[trigger] bare[i])
            == moved(p, s.rows[i]) by {
            movement_is_not_compared(p, s.rows[i].player_code, 0);
        }
        assert(bare.map_values(|row: RowModel| moved(before, row)) =~= s.rows.map_values(
            |row: RowModel| moved(p, row),
        ));
    }
}

/// A snapshot that was published as a new version is what is current, under that
/// version: the same source, moments, parser and announcements, and the same
/// rows in the same order, each equal to the one published in all but movement.
pub proof fn what_is_published_is_current(written: Seq<SnapshotModel>, s: SnapshotModel)
    requires
        written.len() < i64::MAX,
        dated(s),
    ensures
        ({
            let (after, outcome) = published(shelf(written), s);
            outcome.created && stamped(s) ==> {
                &&& current_snapshot(after) matches Ok(Some((version, t)))
                &&& version == outcome.version
                &&& t.rows.len() == s.rows.len()
                &&& unmoved(t) == unmoved(s)
                &&& forall|i: int|
                    0 <= i < s.rows.len() ==> (#[trigger] t.rows[i]).rank == s.rows[i].rank
            }
        }),
{
    let (after, outcome) = published(shelf(written), s);
    if outcome.created && stamped(s) {
        let all = written.push(s);
        if written.len() > 0 {
            assert(shelf(written).last().version == written.len());
        }
        assert(after =~= shelf(all));
        the_last_written_is_current(all);
        let t = last_written(all);
        assert(all.last() == s);
        assert(without_movement(t.rows) =~= without_movement(s.rows));
    }
}

/// With two snapshots published on a fresh store, no player has a movement after
/// the first, and after the second each player of both has the places gained
/// from the one table to the other, whatever movement the two carried.
pub proof fn movement_needs_two_snapshots(s1: SnapshotModel, s2: SnapshotModel, i: int, j: int)
    requires
        dated(s1),
        dated(s2),
        no_duplicates(s1.rows),
        0 <= i < s1.rows.len(),
        0 <= j < s2.rows.len(),
        s1.rows[i].player_code == s2.rows[j].player_code,
        countable(s1.rows[i].rank - s2.rows[j].rank),
    ensures
        ({
            let (first, one) = published(seq![], s1);
            let (second, two) = published(first, s2);
            stamped(s1) && stamped(s2) && one.created && two.created ==> {
                &&& current_snapshot(first) == Ok::<Option<(i64, SnapshotModel)>, StoreErrorModel>(
                    Some((1i64, unmoved(s1))),
                )
                &&& unmoved(s1).rows[i].movement is None
                &&& current_snapshot(second) matches Ok(Some((version, t)))
                &&& version == 2
                &&& t.rows[j].player_code == s1.rows[i].player_code
                &&& t.rows[j].movement == Some((s1.rows[i].rank - s2.rows[j].rank) as i32)
            }
        }),
{
    let none: Seq<SnapshotModel> = seq![];
    let (first, one) = published(seq![], s1);
    let (second, two) = published(first, s2);
    assert(shelf(none) =~= seq![]);
    assert(first =~= shelf(none.push(s1)));
    the_last_written_is_current(none.push(s1));
    if two.created {
        let both = none.push(s1).push(s2);
        assert(second =~= shelf(both));
        the_last_written_is_current(both);
        assert(both.last() == s2);
        assert(both[both.len() - 2] == s1);
        movement_counts_the_places_gained(s1.rows, s2.rows, i, j);
    }
}

/// The movement that a table carries has no part in where a player stands.
proof fn movement_is_not_compared(rows: Seq<RowModel>, code: Seq<char>, from: int)
    requires
        0 <= from,
    ensures
        rank_from(without_movement(rows), code, from) == rank_from(rows, code, from),
    decreases rows.len() - from,
{
    if from < rows.len() && rows[from].player_code != code {
        movement_is_not_compared(rows, code, from + 1);
    }
}

/// A player's movement is the places gained from the one table to the other,
/// whatever movement either carries, as long as an `i32` holds the number; a
/// player whom the earlier table did not have carries none.
pub proof fn movement_counts_the_places_gained(
    previous: Seq<RowModel>,
    current: Seq<RowModel>,
    i: int,
    j: int,
)
    requires
        no_duplicates(previous),
        0 <= j < current.len(),
    ensures
        0 <= i < previous.len() && previous[i].player_code == current[j].player_code && countable(
            previous[i].rank - current[j].rank,
        ) ==> moved(previous, current[j]).movement == Some(
            (previous[i].rank - current[j].rank) as i32,
        ),
        (forall|k: int|
            0 <= k < previous.len() ==> (#[trigger] previous[k]).player_code
                != current[j].player_code) ==> moved(previous, current[j]).movement is None,
{
    let code = current[j].player_code;
    rank_is_of_a_row(previous, code, 0);
    if 0 <= i < previous.len() && previous[i].player_code == code {
        rank_is_found(previous, code, 0, i);
        let n = rank_from(previous, code, 0)->0;
        let k = choose|k: int|
            0 <= k < previous.len() && (#[trigger] previous[k]).player_code == code
                && previous[k].rank == n;
        if k < i {
            assert(previous[k].player_code != previous[i].player_code);
        } else if i < k {
            assert(previous[i].player_code != previous[k].player_code);
        }
    }
}

// ---------------------------------------------------------------------------
// Publishing a live snapshot, and what is then current
// ---------------------------------------------------------------------------

/// The live snapshot the current pointer designates: nothing in a fresh store,
/// else a version and its snapshot.
pub open spec fn live_current_loaded(
    designated: Option<(i64, MetaModel, Seq<LiveRecordModel>)>,
) -> Result<Option<(i64, LiveSnapshotModel)>, StoreErrorModel> {
    match designated {
        None => Ok(None),
        Some((version, meta, records)) => match live_restored(meta, records) {
            Err(e) => Err(e),
            Ok(s) => Ok(Some((version, s))),
        },
    }
}

/// What the current pointer designates, as columns.
pub open spec fn live_designated_model(
    stored: Option<(i64, StoredMeta, Vec<LiveRecord>)>,
) -> Option<(i64, MetaModel, Seq<LiveRecordModel>)> {
    match stored {
        Some((version, meta, records)) => Some((version, meta@, live_records_model(records@))),
        None => None,
    }
}

/// A version and what its live snapshot says, if there is one.
pub open spec fn live_loaded_model(loaded: Option<(i64, LiveSnapshot)>) -> Option<
    (i64, LiveSnapshotModel),
> {
    match loaded {
        Some((version, s)) => Some((version, s@)),
        None => None,
    }
}

/// The live snapshot the current pointer designates, or None on a fresh
/// database.
pub fn load_live_current(stored: &Option<(i64, StoredMeta, Vec<LiveRecord>)>) -> (r: Result<
    Option<(i64, LiveSnapshot)>,
    StoreError,
>)
    ensures
        match r {
            Ok(loaded) => {
                &&& live_current_loaded(live_designated_model(*stored)) == Ok::<
                    Option<(i64, LiveSnapshotModel)>,
                    StoreErrorModel,
                >(live_loaded_model(loaded))
                &&& loaded matches Some((_, s)) ==> s.source_as_of.valid()
                    && s.generated_at.valid()
            },
            Err(e) => live_current_loaded(live_designated_model(*stored)) == Err::<
                Option<(i64, LiveSnapshotModel)>,
                StoreErrorModel,
            >(e@),
        },
{
    match stored {
        None => Ok(None),
        Some((version, meta, records)) => match load_live(meta, records) {
            Ok(s) => Ok(Some((*version, s))),
            Err(e) => Err(e),
        },
    }
}

/// One stored live version.
pub struct LiveShelved {
    pub version: i64,
    pub hash: Seq<char>,
    pub meta: MetaModel,
    pub records: Seq<LiveRecordModel>,
}

/// What a store holds once these live snapshots have been written, first to
/// last.
pub open spec fn live_shelf(written: Seq<LiveSnapshotModel>) -> Seq<LiveShelved> {
    Seq::new(
        written.len(),
        |i: int|
            LiveShelved {
                version: (i + 1) as i64,
                hash: live_rows_hash(written[i].rows),
                meta: live_meta(written[i]),
                records: live_records(written[i].rows),
            },
    )
}

/// What a store holds after a live snapshot has been published to it.
pub open spec fn live_published(held: Seq<LiveShelved>, s: LiveSnapshotModel) -> (
    Seq<LiveShelved>,
    PublishOutcome,
) {
    let current = if held.len() == 0 {
        None
    } else {
        Some((held.last().version, held.last().hash))
    };
    match publication(current, live_rows_hash(s.rows)) {
        Publication::Keep(outcome) => (held, outcome),
        Publication::Write(outcome) => (
            held.push(
                LiveShelved {
                    version: outcome.version,
                    hash: live_rows_hash(s.rows),
                    meta: live_meta(s),
                    records: live_records(s.rows),
                },
            ),
            outcome,
        ),
    }
}

/// What a store gives as the current live snapshot.
pub open spec fn live_current_snapshot(held: Seq<LiveShelved>) -> Result<
    Option<(i64, LiveSnapshotModel)>,
    StoreErrorModel,
> {
    live_current_loaded(
        if held.len() == 0 {
            None
        } else {
            Some((held.last().version, held.last().meta, held.last().records))
        },
    )
}

/// Publishing the live rows that are current writes nothing and keeps the
/// version; publishing any others writes a version larger than every earlier
/// one, the first of a fresh store being one. This is so as long as the current
/// rows and the candidate's do not differ and hash alike.
pub proof fn live_content_is_published_once(
    written: Seq<LiveSnapshotModel>,
    s: LiveSnapshotModel,
)
    requires
        written.len() < i64::MAX,
    ensures
        ({
            let (after, outcome) = live_published(live_shelf(written), s);
            let same = written.len() > 0 && written.last().rows == s.rows;
            let collide = written.len() > 0 && !same && live_rows_hash(written.last().rows)
                == live_rows_hash(s.rows);
            !collide ==> {
                &&& !outcome.created <==> same
                &&& same ==> outcome.version == written.len() && after == live_shelf(written)
                &&& !same ==> outcome.version == written.len() + 1 && after == live_shelf(
                    written.push(s),
                )
            }
        }),
        forall|i: int|
            0 <= i < written.len() ==> (#[trigger] live_shelf(written)[i]).version
                < written.len() + 1,
{
    let held = live_shelf(written);
    let (after, outcome) = live_published(held, s);
    if written.len() > 0 {
        live_rows_are_told_apart(written.last().rows, s.rows);
        assert(held.last().version == written.len());
        assert(held.last().hash == live_rows_hash(written.last().rows));
    }
    if outcome.created {
        assert(after =~= live_shelf(written.push(s)));
    }
}

/// A live snapshot that was published as a new version is what is current, under
/// that version, with nothing lost.
pub proof fn what_is_published_live_is_current(
    written: Seq<LiveSnapshotModel>,
    s: LiveSnapshotModel,
)
    requires
        written.len() < i64::MAX,
    ensures
        ({
            let (after, outcome) = live_published(live_shelf(written), s);
            outcome.created && live_stamped(s) ==> live_current_snapshot(after) == Ok::<
                Option<(i64, LiveSnapshotModel)>,
                StoreErrorModel,
            >(Some((outcome.version, s)))
        }),
{
    live_snapshots_round_trip(s);
}

// ---------------------------------------------------------------------------
// Messages
// ---------------------------------------------------------------------------

/// How an error is worded.
pub open spec fn store_error_text(e: StoreErrorModel) -> Seq<char> {
    match e {
        StoreErrorModel::UnwritableTimestamp => "cannot format timestamp"@,
        StoreErrorModel::BadTimestamp { text } => "bad stored timestamp "@ + debug_quoted(text),
        StoreErrorModel::UnknownSlot { code } => "unknown stored slot "@ + debug_quoted(code),
        StoreErrorModel::UnknownPlayed { code } => "unknown stored result kind "@ + debug_quoted(
            code,
        ),
        StoreErrorModel::BadDate { year, month, day } => "bad stored date "@ + decimal_int(
            year as int,
        ) + "-"@ + decimal(month as nat) + "-"@ + decimal(day as nat),
    }
}

impl StoreError {
    pub fn message(&self) -> (r: String)
        ensures
            r@ == store_error_text(self@),
    {
        match self {
            StoreError::UnwritableTimestamp => "cannot format timestamp".to_string(),
            StoreError::BadTimestamp { text } => {
                let mut s = "bad stored timestamp ".to_string();
                s.append(debug_text(text.as_str()).as_str());
                s
            },
            StoreError::UnknownSlot { code } => {
                let mut s = "unknown stored slot ".to_string();
                s.append(debug_text(code.as_str()).as_str());
                s
            },
            StoreError::UnknownPlayed { code } => {
                let mut s = "unknown stored result kind ".to_string();
                s.append(debug_text(code.as_str()).as_str());
                s
            },
            StoreError::BadDate { year, month, day } => {
                let mut s = "bad stored date ".to_string();
                append_int(&mut s, *year as i64);
                s.append("-");
                append_number(&mut s, *month as u64);
                s.append("-");
                append_number(&mut s, *day as u64);
                s
            },
        }
    }
}

// ---------------------------------------------------------------------------
// What columns that nobody wrote read as
// ---------------------------------------------------------------------------

/// A column that holds a count reads as it, one below zero reads as zero, and
/// one beyond the largest count keeps its low 32 bits.
pub proof fn columns_read_as_counts(v: i64)
    ensures
        0 <= v <= u32::MAX ==> as_count(v) == v,
        v < 0 ==> as_count(v) == 0,
        v >= 0 ==> as_count(v) == v % 0x1_0000_0000,
{
    assert(v >= 0 ==> (v as u32) == v % 0x1_0000_0000) by (bit_vector);
}

/// A stored entry is read exactly when its slot and what its cell showed are
/// words that stand for one; the first that is not is named.
pub proof fn stored_entries_need_known_words(r: ResultRecordModel)
    ensures
        ({
            let slot = r.slot == "slam"@ || r.slot == "masters"@ || r.slot == "other"@;
            let played = r.played == "result"@ || r.played == "absent"@ || r.played == "pending"@;
            &&& stored_result(r) is Ok <==> slot && played
            &&& !slot ==> stored_result(r) == Err::<ResultModel, StoreErrorModel>(
                StoreErrorModel::UnknownSlot { code: r.slot },
            )
            &&& slot && !played ==> stored_result(r) == Err::<ResultModel, StoreErrorModel>(
                StoreErrorModel::UnknownPlayed { code: r.played },
            )
            &&& slot && played && 0 <= r.points <= u32::MAX ==> (stored_result(r) matches Ok(x)
                && result_record(x) == r)
        }),
{
    stored_words_are_read(r.slot);
    stored_words_are_read(r.played);
    columns_read_as_counts(r.points);
}

/// A stored live row has an event exactly when the event's name is stored, with
/// the stored round or, where there is none, an empty one.
pub proof fn stored_events_need_a_name(r: LiveRecordModel)
    ensures
        live_row(r).event is Some <==> r.event_name is Some,
        live_row(r).event matches Some(e) ==> Some(e.name) == r.event_name && (
        r.event_round matches Some(round) ==> e.round == round) && (r.event_round is None
            ==> e.round.len() == 0),
{
}

/// A player's movement is the rank they had in the previous table less the rank
/// they have: positive for places gained. A player whom the previous table did
/// not have has none.
pub proof fn movement_is_the_difference_in_rank(previous: Seq<RowModel>, row: RowModel, i: int)
    requires
        no_duplicates(previous),
        0 <= i < previous.len(),
        row.rank <= i32::MAX,
        previous[i].rank <= i32::MAX,
    ensures
        previous[i].player_code == row.player_code ==> (moved(previous, row).movement matches Some(
            m,
        ) && row.rank + m == previous[i].rank),
        (forall|k: int|
            0 <= k < previous.len() ==> (#[trigger] previous[k]).player_code != row.player_code)
            ==> moved(previous, row).movement is None,
        moved(previous, row) == (RowModel { movement: moved(previous, row).movement, ..row }),
{
    let code = row.player_code;
    rank_is_of_a_row(previous, code, 0);
    if previous[i].player_code == code {
        rank_is_found(previous, code, 0, i);
        let n = rank_from(previous, code, 0)->0;
        let k = choose|k: int|
            0 <= k < previous.len() && (#[trigger] previous[k]).player_code == code
                && previous[k].rank == n;
        if k < i {
            assert(previous[k].player_code != previous[i].player_code);
        } else if i < k {
            assert(previous[i].player_code != previous[k].player_code);
        }
    }
}

/// A candidate is written exactly when nothing is current or its hash is not the
/// current one; the version is then one more than the current one, or the first,
/// and otherwise stays.
pub proof fn versions_grow_with_new_content(
    current: Option<(i64, Seq<char>)>,
    hash: Seq<char>,
)
    requires
        current matches Some((version, _)) ==> version < i64::MAX,
    ensures
        publication(current, hash) is Keep <==> (current matches Some((_, existing)) && existing
            == hash),
        publication(current, hash) matches Publication::Keep(o) ==> !o.created && Some(o.version)
            == (match current {
            Some((version, _)) => Some(version),
            None => None,
        }),
        publication(current, hash) matches Publication::Write(o) ==> o.created && o.version
            == 1 + (match current {
            Some((version, _)) => version as int,
            None => 0,
        }),
{
}

} // verus!
