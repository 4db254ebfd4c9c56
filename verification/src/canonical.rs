//! The canonical text of a table, which its content hash is taken of. Every
//! column stands in it behind its own length, so that two tables have the same
//! text only if they have the same columns.

use vstd::prelude::*;

use crate::storage::{
    live_records_model, race_records_model, result_records_model, LiveRecord, LiveRecordModel,
    RaceRecord, RaceRecordModel, ResultRecord, ResultRecordModel,
};
use crate::text::{
    append_int, append_number, chars_of, decimal, decimal_int, decimals_read_back,
    is_digit, string_opt, strings,
};

verus! {

// ---------------------------------------------------------------------------
// Framing
// ---------------------------------------------------------------------------

/// A part behind its length and a colon.
pub open spec fn frame(part: Seq<char>) -> Seq<char> {
    decimal(part.len()) + seq![':'] + part
}

/// Parts in one text, each in its frame.
pub open spec fn framed(parts: Seq<Seq<char>>) -> Seq<char>
    decreases parts.len(),
{
    if parts.len() == 0 {
        seq![]
    } else {
        framed(parts.drop_last()) + frame(parts.last())
    }
}

/// Parts in one text, each in its frame.
pub fn frame_all(parts: &Vec<String>) -> (r: String)
    ensures
        r@ == framed(strings(parts@)),
{
    let ghost all = strings(parts@);
    let mut out = String::new();
    let mut i: usize = 0;
    assert(out@ =~= framed(all.take(0)));
    while i < parts.len()
        invariant
            i <= parts@.len(),
            all == strings(parts@),
            out@ == framed(all.take(i as int)),
        decreases parts@.len() - i,
    {
        proof {
            reveal_strlit(":");
            assert(all.take(i + 1).drop_last() =~= all.take(i as int));
            assert(":"@ =~= seq![':']);
        }
        let ghost done = out@;
        let part = parts[i].as_str();
        append_number(&mut out, chars_of(part).len() as u64);
        out.append(":");
        out.append(part);
        assert(out@ =~= done + frame(part@));
        i += 1;
    }
    assert(all.take(i as int) =~= all);
    out
}

/// The text opens with the frame of the first part.
proof fn first_frame_leads(parts: Seq<Seq<char>>)
    requires
        parts.len() > 0,
    ensures
        framed(parts) == frame(parts[0]) + framed(parts.drop_first()),
    decreases parts.len(),
{
    let rest = parts.drop_first();
    let front = parts.drop_last();
    if rest.len() == 0 {
        assert(front.len() == 0);
        assert(framed(front) =~= seq![]);
        assert(framed(rest) =~= seq![]);
        assert(parts.last() == parts[0]);
        assert(framed(parts) =~= frame(parts[0]) + framed(rest));
    } else {
        first_frame_leads(front);
        assert(front.drop_first() =~= rest.drop_last());
        assert(rest.last() == parts.last());
        assert(framed(parts) =~= frame(parts[0]) + framed(rest));
    }
}

/// Two texts that open with a frame and are the same open with the same frame.
proof fn equal_frames_hold_equal_parts(
    x: Seq<char>,
    y: Seq<char>,
    after_x: Seq<char>,
    after_y: Seq<char>,
)
    requires
        frame(x) + after_x == frame(y) + after_y,
    ensures
        x == y,
        after_x == after_y,
{
    let s = frame(x) + after_x;
    let dx = decimal(x.len());
    let dy = decimal(y.len());
    let n = dx.len() as int;
    let m = dy.len() as int;
    decimals_read_back(x.len());
    decimals_read_back(y.len());
    assert(s[n] == ':');
    assert(s[m] == ':');
    if n < m {
        assert(s[n] == dy[n]);
        assert(is_digit(dy[n]));
    } else if m < n {
        assert(s[m] == dx[m]);
        assert(is_digit(dx[m]));
    }
    assert(dx =~= s.subrange(0, n));
    assert(dy =~= s.subrange(0, n));
    let k = n + 1 + x.len();
    assert(x =~= s.subrange(n + 1, k));
    assert(y =~= s.subrange(n + 1, k));
    assert(after_x =~= s.subrange(k, s.len() as int));
    assert(after_y =~= s.subrange(k, s.len() as int));
}

/// Only the same parts have the same text.
pub proof fn frames_tell_parts_apart(a: Seq<Seq<char>>, b: Seq<Seq<char>>)
    ensures
        framed(a) == framed(b) <==> a == b,
    decreases a.len(),
{
    if framed(a) == framed(b) {
        if a.len() > 0 {
            first_frame_leads(a);
        }
        if b.len() > 0 {
            first_frame_leads(b);
        }
        if a.len() == 0 && b.len() == 0 {
            assert(a =~= b);
        } else if a.len() == 0 {
            assert(framed(b).len() > 0);
        } else if b.len() == 0 {
            assert(framed(a).len() > 0);
        } else {
            equal_frames_hold_equal_parts(
                a[0],
                b[0],
                framed(a.drop_first()),
                framed(b.drop_first()),
            );
            frames_tell_parts_apart(a.drop_first(), b.drop_first());
            assert(a =~= seq![a[0]] + a.drop_first());
            assert(b =~= seq![b[0]] + b.drop_first());
        }
    }
}

// ---------------------------------------------------------------------------
// Columns as parts
// ---------------------------------------------------------------------------

/// A number that need not be there: nothing, or its digits.
pub open spec fn number_part(n: Option<i64>) -> Seq<char> {
    match n {
        Some(v) => decimal_int(v as int),
        None => seq![],
    }
}

/// A text that need not be there: nothing, or the text behind a mark.
pub open spec fn text_part(t: Option<Seq<char>>) -> Seq<char> {
    match t {
        Some(s) => seq!['='] + s,
        None => seq![],
    }
}

pub open spec fn flag_part(b: bool) -> Seq<char> {
    if b {
        seq!['1']
    } else {
        seq!['0']
    }
}

/// A movement in the width of the other numbers.
pub open spec fn wide_movement(n: Option<i32>) -> Option<i64> {
    match n {
        Some(v) => Some(v as i64),
        None => None,
    }
}

fn number_text(n: i64) -> (r: String)
    ensures
        r@ == decimal_int(n as int),
{
    let mut s = String::new();
    append_int(&mut s, n);
    assert(s@ =~= decimal_int(n as int));
    s
}

fn number_or_nothing(n: Option<i64>) -> (r: String)
    ensures
        r@ == number_part(n),
{
    match n {
        Some(v) => number_text(v),
        None => {
            let s = String::new();
            assert(s@ =~= seq![]);
            s
        },
    }
}

fn text_or_nothing(t: &Option<String>) -> (r: String)
    ensures
        r@ == text_part(string_opt(*t)),
{
    match t {
        Some(text) => {
            let mut s = "=".to_string();
            proof {
                reveal_strlit("=");
            }
            s.append(text.as_str());
            assert(s@ =~= seq!['='] + text@);
            s
        },
        None => {
            let s = String::new();
            assert(s@ =~= seq![]);
            s
        },
    }
}

fn flag_text(b: bool) -> (r: String)
    ensures
        r@ == flag_part(b),
{
    proof {
        reveal_strlit("1");
        reveal_strlit("0");
        assert("1"@ =~= seq!['1']);
        assert("0"@ =~= seq!['0']);
    }
    if b {
        "1".to_string()
    } else {
        "0".to_string()
    }
}

/// Only the same number is written the same.
proof fn decimals_tell_numbers_apart(a: int, b: int)
    ensures
        decimal_int(a) == decimal_int(b) ==> a == b,
        decimal_int(a).len() > 0,
{
    let da = decimal((if a < 0 {
        -a
    } else {
        a
    }) as nat);
    let db = decimal((if b < 0 {
        -b
    } else {
        b
    }) as nat);
    decimals_read_back((if a < 0 {
        -a
    } else {
        a
    }) as nat);
    decimals_read_back((if b < 0 {
        -b
    } else {
        b
    }) as nat);
    assert(is_digit(da[0]));
    assert(is_digit(db[0]));
    if decimal_int(a) == decimal_int(b) {
        let s = decimal_int(a);
        if a < 0 && b < 0 {
            assert(da =~= s.subrange(1, s.len() as int));
            assert(db =~= s.subrange(1, s.len() as int));
        } else if a < 0 {
            assert(s[0] == '-');
            assert(s[0] == db[0]);
        } else if b < 0 {
            assert(s[0] == da[0]);
            assert(s[0] == '-');
        }
    }
}

proof fn number_parts_tell_numbers_apart(a: Option<i64>, b: Option<i64>)
    ensures
        number_part(a) == number_part(b) ==> a == b,
{
    match (a, b) {
        (Some(x), Some(y)) => {
            decimals_tell_numbers_apart(x as int, y as int);
        },
        (Some(x), None) => {
            decimals_tell_numbers_apart(x as int, x as int);
        },
        (None, Some(y)) => {
            decimals_tell_numbers_apart(y as int, y as int);
        },
        (None, None) => {},
    }
}

proof fn text_parts_tell_texts_apart(a: Option<Seq<char>>, b: Option<Seq<char>>)
    ensures
        text_part(a) == text_part(b) ==> a == b,
{
    if text_part(a) == text_part(b) {
        let s = text_part(a);
        match (a, b) {
            (Some(x), Some(y)) => {
                assert(x =~= s.subrange(1, s.len() as int));
                assert(y =~= s.subrange(1, s.len() as int));
            },
            (Some(x), None) => {
                assert(s.len() > 0);
            },
            (None, Some(y)) => {
                assert(text_part(b).len() > 0);
            },
            (None, None) => {},
        }
    }
}

proof fn flags_are_told_apart(a: bool, b: bool)
    ensures
        flag_part(a) == flag_part(b) ==> a == b,
{
    assert(flag_part(true)[0] == '1');
    assert(flag_part(false)[0] == '0');
}

// ---------------------------------------------------------------------------
// The standings
// ---------------------------------------------------------------------------

/// The columns of a ledger entry.
pub open spec fn result_parts(r: ResultRecordModel) -> Seq<Seq<char>> {
    seq![
        r.slot,
        r.slot_label,
        r.played,
        r.event_code,
        r.event_name,
        r.round,
        decimal_int(r.points as int),
        flag_part(r.substituted),
    ]
}

/// The entries of a ledger.
pub open spec fn ledger_parts(results: Seq<ResultRecordModel>) -> Seq<Seq<char>> {
    results.map_values(|r: ResultRecordModel| framed(result_parts(r)))
}

/// The columns of a line, the last of which is its ledger.
pub open spec fn record_parts(r: RaceRecordModel) -> Seq<Seq<char>> {
    seq![
        decimal_int(r.rank as int),
        r.player_code,
        r.player_name,
        r.country,
        decimal_int(r.race_points as int),
        number_part(r.tournaments_played),
        number_part(r.titles),
        framed(ledger_parts(r.results)),
    ]
}

/// The lines of a table.
pub open spec fn table_parts(records: Seq<RaceRecordModel>) -> Seq<Seq<char>> {
    records.map_values(|r: RaceRecordModel| framed(record_parts(r)))
}

/// The canonical text of a table.
pub open spec fn canonical_text(records: Seq<RaceRecordModel>) -> Seq<char> {
    framed(table_parts(records))
}

fn result_text(r: &ResultRecord) -> (out: String)
    ensures
        out@ == framed(result_parts(r@)),
{
    let parts: Vec<String> = vec![
        r.slot.clone(),
        r.slot_label.clone(),
        r.played.clone(),
        r.event_code.clone(),
        r.event_name.clone(),
        r.round.clone(),
        number_text(r.points),
        flag_text(r.substituted),
    ];
    assert(strings(parts@) =~= result_parts(r@));
    frame_all(&parts)
}

fn ledger_text(results: &Vec<ResultRecord>) -> (out: String)
    ensures
        out@ == framed(ledger_parts(result_records_model(results@))),
{
    let mut parts: Vec<String> = Vec::new();
    let mut i: usize = 0;
    while i < results.len()
        invariant
            i <= results@.len(),
            parts@.len() == i,
            forall|k: int|
                0 <= k < i ==> (#[trigger] parts@[k])@ == framed(result_parts(results@[k]@)),
        decreases results@.len() - i,
    {
        parts.push(result_text(&results[i]));
        i += 1;
    }
    assert(strings(parts@) =~= ledger_parts(result_records_model(results@)));
    frame_all(&parts)
}

fn record_text(r: &RaceRecord) -> (out: String)
    ensures
        out@ == framed(record_parts(r@)),
{
    let parts: Vec<String> = vec![
        number_text(r.rank),
        r.player_code.clone(),
        r.player_name.clone(),
        r.country.clone(),
        number_text(r.race_points),
        number_or_nothing(r.tournaments_played),
        number_or_nothing(r.titles),
        ledger_text(&r.results),
    ];
    assert(strings(parts@) =~= record_parts(r@));
    frame_all(&parts)
}

/// The canonical text of a table.
pub fn canonical(records: &Vec<RaceRecord>) -> (out: String)
    ensures
        out@ == canonical_text(race_records_model(records@)),
{
    let mut parts: Vec<String> = Vec::new();
    let mut i: usize = 0;
    while i < records.len()
        invariant
            i <= records@.len(),
            parts@.len() == i,
            forall|k: int|
                0 <= k < i ==> (#[trigger] parts@[k])@ == framed(record_parts(records@[k]@)),
        decreases records@.len() - i,
    {
        parts.push(record_text(&records[i]));
        i += 1;
    }
    assert(strings(parts@) =~= table_parts(race_records_model(records@)));
    frame_all(&parts)
}

proof fn entries_are_told_apart(a: ResultRecordModel, b: ResultRecordModel)
    requires
        framed(result_parts(a)) == framed(result_parts(b)),
    ensures
        a == b,
{
    let x = result_parts(a);
    let y = result_parts(b);
    frames_tell_parts_apart(x, y);
    assert(x[0] == y[0] && x[1] == y[1] && x[2] == y[2] && x[3] == y[3]);
    assert(x[4] == y[4] && x[5] == y[5] && x[6] == y[6] && x[7] == y[7]);
    decimals_tell_numbers_apart(a.points as int, b.points as int);
    flags_are_told_apart(a.substituted, b.substituted);
}

proof fn ledgers_are_told_apart(a: Seq<ResultRecordModel>, b: Seq<ResultRecordModel>)
    requires
        framed(ledger_parts(a)) == framed(ledger_parts(b)),
    ensures
        a == b,
{
    let x = ledger_parts(a);
    let y = ledger_parts(b);
    frames_tell_parts_apart(x, y);
    assert(a.len() == x.len() && b.len() == y.len());
    assert forall|i: int| 0 <= i < a.len() implies a[i] == b[i] by {
        assert(x[i] == y[i]);
        entries_are_told_apart(a[i], b[i]);
    }
    assert(a =~= b);
}

proof fn lines_are_told_apart(a: RaceRecordModel, b: RaceRecordModel)
    requires
        framed(record_parts(a)) == framed(record_parts(b)),
    ensures
        a == b,
{
    let x = record_parts(a);
    let y = record_parts(b);
    frames_tell_parts_apart(x, y);
    assert(x[0] == y[0] && x[1] == y[1] && x[2] == y[2] && x[3] == y[3]);
    assert(x[4] == y[4] && x[5] == y[5] && x[6] == y[6] && x[7] == y[7]);
    decimals_tell_numbers_apart(a.rank as int, b.rank as int);
    decimals_tell_numbers_apart(a.race_points as int, b.race_points as int);
    number_parts_tell_numbers_apart(a.tournaments_played, b.tournaments_played);
    number_parts_tell_numbers_apart(a.titles, b.titles);
    ledgers_are_told_apart(a.results, b.results);
}

/// Two tables have the same canonical text exactly when they have the same
/// columns.
pub proof fn tables_are_told_apart(a: Seq<RaceRecordModel>, b: Seq<RaceRecordModel>)
    ensures
        canonical_text(a) == canonical_text(b) <==> a == b,
{
    if canonical_text(a) == canonical_text(b) {
        let x = table_parts(a);
        let y = table_parts(b);
        frames_tell_parts_apart(x, y);
        assert(a.len() == x.len() && b.len() == y.len());
        assert forall|i: int| 0 <= i < a.len() implies a[i] == b[i] by {
            assert(x[i] == y[i]);
            lines_are_told_apart(a[i], b[i]);
        }
        assert(a =~= b);
    }
}

// ---------------------------------------------------------------------------
// The live race
// ---------------------------------------------------------------------------

/// The columns of a live line.
pub open spec fn live_parts(r: LiveRecordModel) -> Seq<Seq<char>> {
    seq![
        decimal_int(r.rank as int),
        number_part(wide_movement(r.movement)),
        r.player_code,
        r.player_name,
        r.country,
        decimal_int(r.live_points as int),
        text_part(r.event_name),
        text_part(r.event_round),
        number_part(r.next_points),
        number_part(r.max_this_week),
        text_part(r.unavailable_reason),
    ]
}

/// The lines of a live table.
pub open spec fn live_table_parts(records: Seq<LiveRecordModel>) -> Seq<Seq<char>> {
    records.map_values(|r: LiveRecordModel| framed(live_parts(r)))
}

/// The canonical text of a live table.
pub open spec fn live_canonical_text(records: Seq<LiveRecordModel>) -> Seq<char> {
    framed(live_table_parts(records))
}

fn live_text(r: &LiveRecord) -> (out: String)
    ensures
        out@ == framed(live_parts(r@)),
{
    let movement: Option<i64> = match r.movement {
        Some(n) => Some(n as i64),
        None => None,
    };
    let parts: Vec<String> = vec![
        number_text(r.rank),
        number_or_nothing(movement),
        r.player_code.clone(),
        r.player_name.clone(),
        r.country.clone(),
        number_text(r.live_points),
        text_or_nothing(&r.event_name),
        text_or_nothing(&r.event_round),
        number_or_nothing(r.next_points),
        number_or_nothing(r.max_this_week),
        text_or_nothing(&r.unavailable_reason),
    ];
    assert(strings(parts@) =~= live_parts(r@));
    frame_all(&parts)
}

/// The canonical text of a live table.
pub fn live_canonical(records: &Vec<LiveRecord>) -> (out: String)
    ensures
        out@ == live_canonical_text(live_records_model(records@)),
{
    let mut parts: Vec<String> = Vec::new();
    let mut i: usize = 0;
    while i < records.len()
        invariant
            i <= records@.len(),
            parts@.len() == i,
            forall|k: int|
                0 <= k < i ==> (#[trigger] parts@[k])@ == framed(live_parts(records@[k]@)),
        decreases records@.len() - i,
    {
        parts.push(live_text(&records[i]));
        i += 1;
    }
    assert(strings(parts@) =~= live_table_parts(live_records_model(records@)));
    frame_all(&parts)
}

proof fn live_lines_are_told_apart(a: LiveRecordModel, b: LiveRecordModel)
    requires
        framed(live_parts(a)) == framed(live_parts(b)),
    ensures
        a == b,
{
    let x = live_parts(a);
    let y = live_parts(b);
    frames_tell_parts_apart(x, y);
    assert(x[0] == y[0] && x[1] == y[1] && x[2] == y[2] && x[3] == y[3]);
    assert(x[4] == y[4] && x[5] == y[5] && x[6] == y[6] && x[7] == y[7]);
    assert(x[8] == y[8] && x[9] == y[9] && x[10] == y[10]);
    decimals_tell_numbers_apart(a.rank as int, b.rank as int);
    decimals_tell_numbers_apart(a.live_points as int, b.live_points as int);
    number_parts_tell_numbers_apart(wide_movement(a.movement), wide_movement(b.movement));
    number_parts_tell_numbers_apart(a.next_points, b.next_points);
    number_parts_tell_numbers_apart(a.max_this_week, b.max_this_week);
    text_parts_tell_texts_apart(a.event_name, b.event_name);
    text_parts_tell_texts_apart(a.event_round, b.event_round);
    text_parts_tell_texts_apart(a.unavailable_reason, b.unavailable_reason);
}

/// Two live tables have the same canonical text exactly when they have the same
/// columns.
pub proof fn live_tables_are_told_apart(a: Seq<LiveRecordModel>, b: Seq<LiveRecordModel>)
    ensures
        live_canonical_text(a) == live_canonical_text(b) <==> a == b,
{
    if live_canonical_text(a) == live_canonical_text(b) {
        let x = live_table_parts(a);
        let y = live_table_parts(b);
        frames_tell_parts_apart(x, y);
        assert(a.len() == x.len() && b.len() == y.len());
        assert forall|i: int| 0 <= i < a.len() implies a[i] == b[i] by {
            assert(x[i] == y[i]);
            live_lines_are_told_apart(a[i], b[i]);
        }
        assert(a =~= b);
    }
}

} // verus!
