//! The standings as the rest of the crate passes them around.

use vstd::prelude::*;

use crate::calendar::{CalendarDate, Timestamp};
use crate::text::same_text;

verus! {

/// Which block of the source's standings table a result was counted in. The
/// blocks are read from the header's `colspan` groups rather than hardcoded, so
/// a season carrying a different number of "best other" columns still parses.
#[derive(Debug, Clone, Copy, PartialEq, Eq, Structural)]
pub enum Slot {
    GrandSlam,
    /// One of the mandatory ATP Masters 1000 events.
    Mandatory1000,
    /// A next-best result, filling out the total below the mandatory events.
    BestOther,
}

/// The stored value of a slot.
pub open spec fn slot_code(slot: Slot) -> Seq<char> {
    match slot {
        Slot::GrandSlam => "slam"@,
        Slot::Mandatory1000 => "masters"@,
        Slot::BestOther => "other"@,
    }
}

/// The slot that a stored value stands for.
pub open spec fn slot_of_code(code: Seq<char>) -> Option<Slot> {
    if code == "slam"@ {
        Some(Slot::GrandSlam)
    } else if code == "masters"@ {
        Some(Slot::Mandatory1000)
    } else if code == "other"@ {
        Some(Slot::BestOther)
    } else {
        None
    }
}

/// The heading above a slot's block.
pub open spec fn slot_title(slot: Slot) -> Seq<char> {
    match slot {
        Slot::GrandSlam => "Grand Slam"@,
        Slot::Mandatory1000 => "Masters 1000 (mandatory)"@,
        Slot::BestOther => "Best other"@,
    }
}

impl Slot {
    /// Stable code used as the stored value; parsing it back must round-trip.
    pub fn code(self) -> (r: &'static str)
        ensures
            r@ == slot_code(self),
    {
        match self {
            Slot::GrandSlam => "slam",
            Slot::Mandatory1000 => "masters",
            Slot::BestOther => "other",
        }
    }

    pub fn from_code(code: &str) -> (r: Option<Self>)
        ensures
            r == slot_of_code(code@),
    {
        if same_text(code, "slam") {
            Some(Slot::GrandSlam)
        } else if same_text(code, "masters") {
            Some(Slot::Mandatory1000)
        } else if same_text(code, "other") {
            Some(Slot::BestOther)
        } else {
            None
        }
    }

    /// Heading shown above the block in the expanded breakdown.
    pub fn title(self) -> (r: &'static str)
        ensures
            r@ == slot_title(self),
    {
        match self {
            Slot::GrandSlam => "Grand Slam",
            Slot::Mandatory1000 => "Masters 1000 (mandatory)",
            Slot::BestOther => "Best other",
        }
    }
}

/// Reading a slot's stored value gives the slot back, and only its own stored
/// value reads as it.
pub proof fn slot_codes_round_trip(slot: Slot, code: Seq<char>)
    ensures
        slot_of_code(slot_code(slot)) == Some(slot),
        slot_of_code(code) == Some(slot) ==> code == slot_code(slot),
{
    reveal_strlit("slam");
    reveal_strlit("masters");
    reveal_strlit("other");
    assert("slam"@.len() == 4 && "masters"@.len() == 7 && "other"@.len() == 5);
}

/// Two slots under one heading are the same slot.
pub proof fn slot_titles_tell_slots_apart(a: Slot, b: Slot)
    ensures
        slot_title(a) == slot_title(b) ==> a == b,
{
    reveal_strlit("Grand Slam");
    reveal_strlit("Masters 1000 (mandatory)");
    reveal_strlit("Best other");
    assert("Grand Slam"@[0] == 'G' && "Best other"@[0] == 'B' && "Masters 1000 (mandatory)"@[0]
        == 'M');
}

/// What the source shows in a cell. "Did not play" and "not played yet" are
/// different facts about a mandatory event, so they never render alike.
#[derive(Debug, Clone, Copy, PartialEq, Eq, Structural)]
pub enum Played {
    /// A result carrying points.
    Result,
    /// The source shows `A`: the player did not play a mandatory event that
    /// has already taken place.
    Absent,
    /// The source leaves the cell empty: the event has not happened yet.
    Pending,
}

/// The stored value of what a cell shows.
pub open spec fn played_code(played: Played) -> Seq<char> {
    match played {
        Played::Result => "result"@,
        Played::Absent => "absent"@,
        Played::Pending => "pending"@,
    }
}

/// What a stored value says that a cell shows.
pub open spec fn played_of_code(code: Seq<char>) -> Option<Played> {
    if code == "result"@ {
        Some(Played::Result)
    } else if code == "absent"@ {
        Some(Played::Absent)
    } else if code == "pending"@ {
        Some(Played::Pending)
    } else {
        None
    }
}

impl Played {
    pub fn code(self) -> (r: &'static str)
        ensures
            r@ == played_code(self),
    {
        match self {
            Played::Result => "result",
            Played::Absent => "absent",
            Played::Pending => "pending",
        }
    }

    pub fn from_code(code: &str) -> (r: Option<Self>)
        ensures
            r == played_of_code(code@),
    {
        if same_text(code, "result") {
            Some(Played::Result)
        } else if same_text(code, "absent") {
            Some(Played::Absent)
        } else if same_text(code, "pending") {
            Some(Played::Pending)
        } else {
            None
        }
    }
}

/// Reading a stored value gives back what was stored, and only its own stored
/// value reads as it.
pub proof fn played_codes_round_trip(played: Played, code: Seq<char>)
    ensures
        played_of_code(played_code(played)) == Some(played),
        played_of_code(code) == Some(played) ==> code == played_code(played),
{
    reveal_strlit("result");
    reveal_strlit("absent");
    reveal_strlit("pending");
    assert("result"@[0] == 'r' && "absent"@[0] == 'a' && "pending"@[0] == 'p');
}

/// One tournament in the ledger behind a player's race total.
///
/// Identity comes from the cell's own wikilink, never from its column: the
/// rulebook lets a next-best result be counted in a mandatory Masters 1000
/// slot, so the event a cell names and the slot it occupies can differ.
#[derive(Debug, Clone)]
pub struct TournamentResult {
    pub slot: Slot,
    /// The mandatory event this column stands for ("US Open", "Miami"), as the
    /// source labels it. Empty for a "best other" column, which stands for no
    /// particular event.
    pub slot_label: String,
    pub played: Played,
    /// Wikipedia article title of the event actually played; empty unless
    /// `played` is `Result`.
    pub event_code: String,
    /// That title with the season and the "– Men's singles" suffix removed.
    pub event_name: String,
    /// Round reached: `W`, `F`, `SF`, `QF`, `R16`, … or `RR` for a round robin.
    pub round: String,
    pub points: u32,
    /// True when this result is counted in place of a mandatory Masters 1000
    /// event, which the source marks by italicising the cell. `slot_label` is
    /// then the event replaced, not the one played.
    pub substituted: bool,
}

/// What a `TournamentResult` says.
pub struct ResultModel {
    pub slot: Slot,
    pub slot_label: Seq<char>,
    pub played: Played,
    pub event_code: Seq<char>,
    pub event_name: Seq<char>,
    pub round: Seq<char>,
    pub points: u32,
    pub substituted: bool,
}

impl View for TournamentResult {
    type V = ResultModel;

    open spec fn view(&self) -> ResultModel {
        ResultModel {
            slot: self.slot,
            slot_label: self.slot_label@,
            played: self.played,
            event_code: self.event_code@,
            event_name: self.event_name@,
            round: self.round@,
            points: self.points,
            substituted: self.substituted,
        }
    }
}

/// What a list of results says.
pub open spec fn results_model(results: Seq<TournamentResult>) -> Seq<ResultModel> {
    results.map_values(|r: TournamentResult| r@)
}

/// The points of a ledger, added up.
pub open spec fn ledger_sum(results: Seq<ResultModel>) -> nat
    decreases results.len(),
{
    if results.len() == 0 {
        0
    } else {
        ledger_sum(results.drop_last()) + results.last().points as nat
    }
}

/// How many entries of a ledger carry points.
pub open spec fn counting(results: Seq<ResultModel>) -> nat
    decreases results.len(),
{
    if results.len() == 0 {
        0
    } else {
        counting(results.drop_last()) + (if results.last().played == Played::Result {
            1nat
        } else {
            0nat
        })
    }
}

/// The first entries of a ledger never add up to more than all of it.
pub proof fn ledger_sum_grows(results: Seq<ResultModel>, n: int)
    requires
        0 <= n <= results.len(),
    ensures
        ledger_sum(results.take(n)) <= ledger_sum(results),
    decreases results.len(),
{
    if n == results.len() {
        assert(results.take(n) =~= results);
    } else {
        ledger_sum_grows(results.drop_last(), n);
        assert(results.drop_last().take(n) =~= results.take(n));
    }
}

/// The points of a ledger added up, where they fit a total.
pub fn ledger_total(results: &Vec<TournamentResult>) -> (r: Option<u32>)
    ensures
        match r {
            Some(n) => n == ledger_sum(results_model(results@)),
            None => ledger_sum(results_model(results@)) > u32::MAX,
        },
{
    let ghost all = results_model(results@);
    let mut sum: u32 = 0;
    let mut i: usize = 0;
    while i < results.len()
        invariant
            i <= results@.len(),
            all == results_model(results@),
            sum == ledger_sum(all.take(i as int)),
        decreases results@.len() - i,
    {
        assert(all.take(i + 1).drop_last() =~= all.take(i as int));
        proof {
            ledger_sum_grows(all, i + 1);
        }
        match sum.checked_add(results[i].points) {
            Some(s) => {
                sum = s;
            },
            None => {
                return None;
            },
        }
        i += 1;
    }
    assert(all.take(i as int) =~= all);
    Some(sum)
}

/// One player's line in the standings.
#[derive(Debug, Clone)]
pub struct RaceRow {
    /// Displayed race rank; unique and contiguous after validation.
    pub rank: u32,
    /// Places gained since our previous stored snapshot. Derived, not taken
    /// from a source, so it is None until two snapshots exist.
    pub movement: Option<i32>,
    /// Wikipedia article title — the canonical identity key.
    pub player_code: String,
    /// Article title with any disambiguator stripped; display only.
    pub player_name: String,
    /// ISO 3166-1 alpha-3, or empty when the source shows no flag
    /// (neutral-status players).
    pub country: String,
    pub race_points: u32,
    /// The per-tournament ledger behind `race_points`, in the source's own
    /// order. Empty when the breakdown did not reconcile against the stated
    /// total: a row always keeps its total, and never shows a wrong breakdown.
    pub results: Vec<TournamentResult>,
    /// Tournaments the source says the player has entered this season. Usually
    /// larger than the ledger, because only a player's best results count.
    pub tournaments_played: Option<u32>,
    pub titles: Option<u32>,
}

/// What a `RaceRow` says.
pub struct RowModel {
    pub rank: u32,
    pub movement: Option<i32>,
    pub player_code: Seq<char>,
    pub player_name: Seq<char>,
    pub country: Seq<char>,
    pub race_points: u32,
    pub results: Seq<ResultModel>,
    pub tournaments_played: Option<u32>,
    pub titles: Option<u32>,
}

impl View for RaceRow {
    type V = RowModel;

    open spec fn view(&self) -> RowModel {
        RowModel {
            rank: self.rank,
            movement: self.movement,
            player_code: self.player_code@,
            player_name: self.player_name@,
            country: self.country@,
            race_points: self.race_points,
            results: results_model(self.results@),
            tournaments_played: self.tournaments_played,
            titles: self.titles,
        }
    }
}

/// What a list of rows says.
pub open spec fn rows_model(rows: Seq<RaceRow>) -> Seq<RowModel> {
    rows.map_values(|r: RaceRow| r@)
}

impl RaceRow {
    /// Points itemised by the ledger. Equal to `race_points` whenever a ledger
    /// survived reconciliation, which is the condition for keeping one.
    pub fn ledger_points(&self) -> (r: u32)
        requires
            ledger_sum(self@.results) <= u32::MAX,
        ensures
            r == ledger_sum(self@.results),
    {
        match ledger_total(&self.results) {
            Some(n) => n,
            None => 0,
        }
    }

    /// Ledger entries that actually carry points, as opposed to the mandatory
    /// slots shown to record that the player did not play them.
    pub fn counting_results(&self) -> (r: usize)
        ensures
            r == counting(self@.results),
            r <= self@.results.len(),
    {
        let ghost all = self@.results;
        let mut n: usize = 0;
        let mut i: usize = 0;
        while i < self.results.len()
            invariant
                n <= i <= self.results@.len(),
                all == results_model(self.results@),
                n == counting(all.take(i as int)),
            decreases self.results@.len() - i,
        {
            assert(all.take(i + 1).drop_last() =~= all.take(i as int));
            if self.results[i].played == Played::Result {
                n += 1;
            }
            i += 1;
        }
        assert(all.take(i as int) =~= all);
        n
    }
}

/// An announced qualification, always carried with the source that announced
/// it. Never inferred from points.
#[derive(Debug, Clone)]
pub struct OfficialQualifier {
    pub player_code: String,
    /// Date as displayed by the source; the year is the season.
    pub qualified_on: CalendarDate,
    pub source_url: String,
}

/// What an `OfficialQualifier` says.
pub struct QualifierModel {
    pub player_code: Seq<char>,
    pub qualified_on: CalendarDate,
    pub source_url: Seq<char>,
}

impl View for OfficialQualifier {
    type V = QualifierModel;

    open spec fn view(&self) -> QualifierModel {
        QualifierModel {
            player_code: self.player_code@,
            qualified_on: self.qualified_on,
            source_url: self.source_url@,
        }
    }
}

/// What a list of qualifiers says.
pub open spec fn qualifiers_model(qualifiers: Seq<OfficialQualifier>) -> Seq<QualifierModel> {
    qualifiers.map_values(|q: OfficialQualifier| q@)
}

/// The standings at one moment, with the qualifications announced by then.
#[derive(Debug, Clone)]
pub struct Snapshot {
    /// The date the source itself states the standings are current to.
    pub source_as_of: Timestamp,
    /// When we fetched and published it.
    pub generated_at: Timestamp,
    /// URL or file the rows were parsed from.
    pub source: String,
    pub parser_version: String,
    pub rows: Vec<RaceRow>,
    pub qualifiers: Vec<OfficialQualifier>,
}

/// What a `Snapshot` says.
pub struct SnapshotModel {
    pub source_as_of: Timestamp,
    pub generated_at: Timestamp,
    pub source: Seq<char>,
    pub parser_version: Seq<char>,
    pub rows: Seq<RowModel>,
    pub qualifiers: Seq<QualifierModel>,
}

/// Every announcement in a snapshot has a date that exists.
pub open spec fn dated(s: SnapshotModel) -> bool {
    forall|i: int|
        0 <= i < s.qualifiers.len() ==> (#[trigger] s.qualifiers[i]).qualified_on.valid()
}

impl View for Snapshot {
    type V = SnapshotModel;

    open spec fn view(&self) -> SnapshotModel {
        SnapshotModel {
            source_as_of: self.source_as_of,
            generated_at: self.generated_at,
            source: self.source@,
            parser_version: self.parser_version@,
            rows: rows_model(self.rows@),
            qualifiers: qualifiers_model(self.qualifiers@),
        }
    }
}

// ---------------------------------------------------------------------------
// What a ledger adds up to
// ---------------------------------------------------------------------------

/// The points of a ledger are those of its entries: one entry has its own, and
/// two ledgers put together have the points of both. Entries count exactly when
/// they are results.
pub proof fn a_ledger_adds_up_its_entries(
    one: ResultModel,
    a: Seq<ResultModel>,
    b: Seq<ResultModel>,
)
    ensures
        ledger_sum(seq![one]) == one.points,
        ledger_sum(a + b) == ledger_sum(a) + ledger_sum(b),
        counting(a) == a.filter(|r: ResultModel| r.played == Played::Result).len(),
{
    assert(seq![one].drop_last() =~= seq![]);
    reveal_with_fuel(ledger_sum, 2);
    sums_of_two(a, b);
    results_are_counted(a);
}

proof fn sums_of_two(a: Seq<ResultModel>, b: Seq<ResultModel>)
    ensures
        ledger_sum(a + b) == ledger_sum(a) + ledger_sum(b),
    decreases b.len(),
{
    if b.len() == 0 {
        assert(a + b =~= a);
    } else {
        sums_of_two(a, b.drop_last());
        assert((a + b).drop_last() =~= a + b.drop_last());
    }
}

proof fn results_are_counted(a: Seq<ResultModel>)
    ensures
        counting(a) == a.filter(|r: ResultModel| r.played == Played::Result).len(),
    decreases a.len(),
{
    reveal(Seq::filter);
    if a.len() > 0 {
        results_are_counted(a.drop_last());
    }
}

/// A stored value reads as a slot, or as what a cell shows, exactly when it is
/// one of the three words for it.
pub proof fn stored_words_are_read(code: Seq<char>)
    ensures
        slot_of_code(code) == Some(Slot::GrandSlam) <==> code == "slam"@,
        slot_of_code(code) == Some(Slot::Mandatory1000) <==> code == "masters"@,
        slot_of_code(code) == Some(Slot::BestOther) <==> code == "other"@,
        played_of_code(code) == Some(Played::Result) <==> code == "result"@,
        played_of_code(code) == Some(Played::Absent) <==> code == "absent"@,
        played_of_code(code) == Some(Played::Pending) <==> code == "pending"@,
{
    slot_codes_round_trip(Slot::GrandSlam, code);
    slot_codes_round_trip(Slot::Mandatory1000, code);
    slot_codes_round_trip(Slot::BestOther, code);
    played_codes_round_trip(Played::Result, code);
    played_codes_round_trip(Played::Absent, code);
    played_codes_round_trip(Played::Pending, code);
}

} // verus!
