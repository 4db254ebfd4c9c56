//! How an article's table is found and read as a whole, what a snapshot takes
//! from the article, and what is reported of one that is not accepted.

use vstd::prelude::*;

use crate::calendar::Timestamp;
use crate::model::{QualifierModel, RowModel, Slot};
use crate::parser::{
    live_duplicates, live_gap_from, live_problems, live_rises, projections, LiveProblemModel,
    LiveRowModel,
};
use crate::reading::cut_behind_whole;
use crate::source::{
    absentees, after_first, as_of_in, chunk_in, duplicates, groups_in, problems_in, qualifiers_in,
    rank_gap_from, rises, rows_in, snapshot_in, standings_in, table_in, Chunk, ErrorModel,
    ProblemModel,
};
use crate::text::{has, lines_of, split_on};

verus! {

// ---------------------------------------------------------------------------
// The table
// ---------------------------------------------------------------------------

/// A table begins with its opening, wherever that first stands, and ends in
/// front of the line that closes it.
pub proof fn a_table_ends_where_it_closes(
    front: Seq<char>,
    open: Seq<char>,
    body: Seq<char>,
    rest: Seq<char>,
)
    requires
        open.len() > 0,
        forall|q: int| 1 <= q < open.len() ==> #[trigger] open[q] != open[0],
        !(has(front, open)),
        !(has(open + body, "\n|}"@)),
    ensures
        table_in(front + open + (body + "\n|}"@ + rest), open) == Some(open + body),
{
    reveal_strlit("\n|}");
    let close = "\n|}"@;
    let behind = body + close + rest;
    let s = front + open + behind;
    cut_behind_whole(front, open, behind);
    let i = front.len() as int;
    let table = open + body;
    assert(s.subrange(i, s.len() as int) =~= table + close + rest);
    cut_behind_whole(table, close, rest);
}

/// The standings stand in the first table with the standings' style. What comes
/// before its first row line declares the blocks of columns, what comes before
/// the second is the rest of the header, and everything behind that is rows,
/// each begun by a row line.
pub proof fn the_standings_follow_two_header_rows(
    front: Seq<char>,
    first: Seq<char>,
    second: Seq<char>,
    body: Seq<char>,
    rest: Seq<char>,
)
    requires
        ({
            let open = "{|class=\"wikitable nowrap\" style=font-size:90%;text-align:center"@;
            &&& !(has(front, open))
            &&& !(has(open + first, "\n|-"@))
            &&& !(has(second, "\n|-"@))
            &&& !(has(open + (first + "\n|-"@ + (second + "\n|-"@ + body)), "\n|}"@))
        }),
    ensures
        ({
            let open = "{|class=\"wikitable nowrap\" style=font-size:90%;text-align:center"@;
            let table = first + "\n|-"@ + (second + "\n|-"@ + body);
            standings_in(front + open + (table + "\n|}"@ + rest)) == rows_in(
                split_on(body, "\n|-"@),
                groups_in(lines_of(open + first)),
            )
        }),
{
    let open = "{|class=\"wikitable nowrap\" style=font-size:90%;text-align:center"@;
    let table = first + "\n|-"@ + (second + "\n|-"@ + body);
    the_opening_has_one_brace();
    a_table_ends_where_it_closes(front, open, table, rest);
    assert(open + table =~= (open + first) + "\n|-"@ + (second + "\n|-"@ + body));
    rows_follow_the_header(open + first, second, body);
}

proof fn the_opening_has_one_brace()
    ensures
        ({
            let open = "{|class=\"wikitable nowrap\" style=font-size:90%;text-align:center"@;
            &&& open.len() > 0
            &&& forall|q: int| 1 <= q < open.len() ==> #[trigger] open[q] != open[0]
        }),
{
    reveal_strlit("{|class=\"wikitable nowrap\" style=font-size:90%;text-align:center");
}

proof fn rows_follow_the_header(top: Seq<char>, second: Seq<char>, body: Seq<char>)
    requires
        !(has(top, "\n|-"@)),
        !(has(second, "\n|-"@)),
    ensures
        ({
            let chunks = split_on(top + "\n|-"@ + (second + "\n|-"@ + body), "\n|-"@);
            &&& chunks[0] == top
            &&& after_first(chunks, 2) == split_on(body, "\n|-"@)
        }),
{
    reveal_strlit("\n|-");
    let sep = "\n|-"@;
    cut_behind_whole(top, sep, second + sep + body);
    cut_behind_whole(second, sep, body);
    let chunks = split_on(top + sep + (second + sep + body), sep);
    assert(chunks == seq![top] + split_on(second + sep + body, sep));
    assert(split_on(second + sep + body, sep) == seq![second] + split_on(body, sep));
    assert(split_on(body, sep).len() > 0);
    assert(after_first(chunks, 2) =~= split_on(body, sep));
}

/// The rows of a table are those of its chunks, in the order of the chunks; a
/// chunk that is no row adds none, and the first that fails decides.
pub proof fn rows_keep_the_order_of_the_chunks(
    a: Seq<Seq<char>>,
    b: Seq<Seq<char>>,
    chunk: Seq<char>,
    groups: Seq<(Slot, usize)>,
)
    ensures
        match rows_in(a, groups) {
            Err(e) => rows_in(a + b, groups) == Err::<Seq<RowModel>, ErrorModel>(e),
            Ok(x) => match rows_in(b, groups) {
                Err(e) => rows_in(a + b, groups) == Err::<Seq<RowModel>, ErrorModel>(e),
                Ok(y) => rows_in(a + b, groups) == Ok::<Seq<RowModel>, ErrorModel>(x + y),
            },
        },
        match chunk_in(chunk, groups) {
            Chunk::Skip => rows_in(seq![chunk], groups) == Ok::<Seq<RowModel>, ErrorModel>(seq![]),
            Chunk::Row(row) => rows_in(seq![chunk], groups) == Ok::<Seq<RowModel>, ErrorModel>(
                seq![row],
            ),
            Chunk::Fail(e) => rows_in(seq![chunk], groups) == Err::<Seq<RowModel>, ErrorModel>(e),
        },
{
    one_chunk(chunk, groups);
    chunks_in_order(a, b, groups);
}

proof fn one_chunk(chunk: Seq<char>, groups: Seq<(Slot, usize)>)
    ensures
        match chunk_in(chunk, groups) {
            Chunk::Skip => rows_in(seq![chunk], groups) == Ok::<Seq<RowModel>, ErrorModel>(seq![]),
            Chunk::Row(row) => rows_in(seq![chunk], groups) == Ok::<Seq<RowModel>, ErrorModel>(
                seq![row],
            ),
            Chunk::Fail(e) => rows_in(seq![chunk], groups) == Err::<Seq<RowModel>, ErrorModel>(e),
        },
{
    let one = seq![chunk];
    let none = one.drop_last();
    assert(none.len() == 0);
    assert(rows_in(none, groups) == Ok::<Seq<RowModel>, ErrorModel>(seq![]));
    assert(one.last() == chunk);
    if let Chunk::Row(row) = chunk_in(chunk, groups) {
        assert(Seq::<RowModel>::empty().push(row) =~= seq![row]);
    }
}

proof fn chunks_in_order(a: Seq<Seq<char>>, b: Seq<Seq<char>>, groups: Seq<(Slot, usize)>)
    ensures
        match rows_in(a, groups) {
            Err(e) => rows_in(a + b, groups) == Err::<Seq<RowModel>, ErrorModel>(e),
            Ok(x) => match rows_in(b, groups) {
                Err(e) => rows_in(a + b, groups) == Err::<Seq<RowModel>, ErrorModel>(e),
                Ok(y) => rows_in(a + b, groups) == Ok::<Seq<RowModel>, ErrorModel>(x + y),
            },
        },
    decreases b.len(),
{
    if b.len() == 0 {
        assert(a + b =~= a);
        if let Ok(x) = rows_in(a, groups) {
            assert(x + Seq::<RowModel>::empty() =~= x);
        }
    } else {
        let front = b.drop_last();
        chunks_in_order(a, front, groups);
        assert((a + b).drop_last() =~= a + front);
        assert((a + b).last() == b.last());
        if let (Ok(x), Ok(y)) = (rows_in(a, groups), rows_in(front, groups)) {
            if let Chunk::Row(row) = chunk_in(b.last(), groups) {
                assert(x + y.push(row) =~= (x + y).push(row));
            }
        }
    }
}

/// A snapshot has the date, the rows and the announcements that the article
/// states, the label it was asked for by and the moment it was read; an article
/// without a date or without a readable table gives that reason, the date first,
/// and one whose table is not sound gives everything that is wrong with it.
pub proof fn a_snapshot_is_what_the_article_states(
    wikitext: Seq<char>,
    label: Seq<char>,
    season: i32,
    now: Timestamp,
)
    ensures
        ({
            let r = snapshot_in(wikitext, label, season, now);
            let wrong = problems_in(standings_in(wikitext)->Ok_0, qualifiers_in(wikitext, season));
            &&& as_of_in(wikitext) matches Err(e) ==> r == Err::<
                crate::model::SnapshotModel,
                ErrorModel,
            >(e)
            &&& as_of_in(wikitext) is Ok ==> (standings_in(wikitext) matches Err(e) ==> r == Err::<
                crate::model::SnapshotModel,
                ErrorModel,
            >(e))
            &&& as_of_in(wikitext) is Ok && standings_in(wikitext) is Ok && wrong.len() > 0 ==> r
                == Err::<crate::model::SnapshotModel, ErrorModel>(
                ErrorModel::Rejected { problems: wrong },
            )
            &&& r matches Ok(s) ==> {
                &&& as_of_in(wikitext) == Ok::<Timestamp, ErrorModel>(s.source_as_of)
                &&& standings_in(wikitext) == Ok::<Seq<RowModel>, ErrorModel>(s.rows)
                &&& s.qualifiers == qualifiers_in(wikitext, season)
                &&& s.source == label
                &&& s.generated_at == now
            }
        }),
{
}

// ---------------------------------------------------------------------------
// What is reported
// ---------------------------------------------------------------------------

/// A problem is one that the table has: it is too short and has so many rows;
/// the row at a position has another rank than its position, and every row above
/// it has its own; a player stands in it twice; a row has more points than the
/// row above it; or an announced qualifier does not stand in it.
pub open spec fn is_so(
    p: ProblemModel,
    rows: Seq<RowModel>,
    qualifiers: Seq<QualifierModel>,
) -> bool {
    match p {
        ProblemModel::RowCount { rows: n } => n == rows.len() && n < 10,
        ProblemModel::RankGap { position, expected, got } => {
            &&& 1 <= position <= rows.len()
            &&& expected == position
            &&& rows[position - 1].rank == got
            &&& got != position
            &&& forall|k: int| 0 <= k < position - 1 ==> (#[trigger] rows[k]).rank == k + 1
        },
        ProblemModel::DuplicatePlayer { code } => exists|i: int, j: int|
            0 <= i < j < rows.len() && (#[trigger] rows[i]).player_code == code && (
            #[trigger] rows[j]).player_code == code,
        ProblemModel::PointsRise { rank, points, above } => exists|i: int, j: int|
            0 <= i < rows.len() && j == i + 1 && j < rows.len() && (#[trigger] rows[i]).race_points
                == above && (#[trigger] rows[j]).race_points == points && rows[j].rank == rank
                && points > above,
        ProblemModel::QualifierAbsent { code } => {
            &&& exists|q: int| 0 <= q < qualifiers.len() && (#[trigger] qualifiers[q]).player_code
                == code
            &&& forall|i: int| 0 <= i < rows.len() ==> (#[trigger] rows[i]).player_code != code
        },
    }
}

/// Everything that is reported of a table is so.
pub proof fn what_is_reported_is_so(
    rows: Seq<RowModel>,
    qualifiers: Seq<QualifierModel>,
    k: int,
)
    requires
        rows.len() <= u32::MAX,
        0 <= k < problems_in(rows, qualifiers).len(),
    ensures
        is_so(problems_in(rows, qualifiers)[k], rows, qualifiers),
{
    let gap = rank_gap_from(rows, 0);
    let twice = duplicates(rows);
    let up = rises(rows);
    let absent = absentees(rows, qualifiers);
    let p = problems_in(rows, qualifiers)[k];
    gaps_are_so(rows, qualifiers, 0);
    duplicates_are_so(rows, qualifiers);
    rises_are_so(rows, qualifiers);
    absentees_are_so(rows, qualifiers);
    if gap.contains(p) || twice.contains(p) || up.contains(p) || absent.contains(p) {
    } else {
        assert(p == ProblemModel::RowCount { rows: rows.len() } && rows.len() < 10) by {
            let n = crate::source::shortfall(rows).len() as int;
            if k >= n {
                let a = n + gap.len();
                let b = a + twice.len();
                let c = b + up.len();
                if k < a {
                    assert(gap[k - n] == p);
                } else if k < b {
                    assert(twice[k - a] == p);
                } else if k < c {
                    assert(up[k - b] == p);
                } else {
                    assert(absent[k - c] == p);
                }
            }
        }
    }
}

proof fn gaps_are_so(rows: Seq<RowModel>, qualifiers: Seq<QualifierModel>, from: int)
    requires
        rows.len() <= u32::MAX,
        0 <= from,
        forall|k: int| 0 <= k < from && k < rows.len() ==> (#[trigger] rows[k]).rank == k + 1,
    ensures
        forall|p: ProblemModel| #[trigger]
            rank_gap_from(rows, from).contains(p) ==> is_so(p, rows, qualifiers),
    decreases rows.len() - from,
{
    if from < rows.len() && rows[from].rank == from + 1 {
        gaps_are_so(rows, qualifiers, from + 1);
        assert(rank_gap_from(rows, from) == rank_gap_from(rows, from + 1));
    } else if from < rows.len() {
        let gap = ProblemModel::RankGap {
            position: (from + 1) as nat,
            expected: (from + 1) as u32,
            got: rows[from].rank,
        };
        let found = rank_gap_from(rows, from);
        assert(found =~= seq![gap]);
        assert forall|p: ProblemModel| #[trigger] found.contains(p) implies p == gap by {
            assert(found[found.index_of(p)] == p);
        }
        assert(is_so(gap, rows, qualifiers));
    }
}

proof fn duplicates_are_so(rows: Seq<RowModel>, qualifiers: Seq<QualifierModel>)
    ensures
        forall|p: ProblemModel| #[trigger]
            duplicates(rows).contains(p) ==> p is DuplicatePlayer && is_so(p, rows, qualifiers),
    decreases rows.len(),
{
    if rows.len() > 0 {
        let less = rows.drop_last();
        duplicates_are_so(less, qualifiers);
        assert forall|p: ProblemModel| #[trigger]
            duplicates(rows).contains(p) implies p is DuplicatePlayer && is_so(
            p,
            rows,
            qualifiers,
        ) by {
            let at = duplicates(rows).index_of(p);
            if at < duplicates(less).len() {
                assert(duplicates(less)[at] == p);
                assert(duplicates(less).contains(p));
                let code = p->DuplicatePlayer_code;
                let (i, j) = choose|i: int, j: int|
                    0 <= i < j < less.len() && (#[trigger] less[i]).player_code == code && (
                    #[trigger] less[j]).player_code == code;
                assert(rows[i] == less[i] && rows[j] == less[j]);
            } else {
                let n = rows.len() - 1;
                assert(rows[n] == rows.last());
                let i = choose|i: int|
                    0 <= i < less.len() && (#[trigger] less[i]).player_code
                        == rows.last().player_code;
                assert(rows[i] == less[i]);
            }
        }
    }
}

proof fn rises_are_so(rows: Seq<RowModel>, qualifiers: Seq<QualifierModel>)
    ensures
        forall|p: ProblemModel| #[trigger]
            rises(rows).contains(p) ==> p is PointsRise && is_so(p, rows, qualifiers),
    decreases rows.len(),
{
    if rows.len() >= 2 {
        let less = rows.drop_last();
        rises_are_so(less, qualifiers);
        assert forall|p: ProblemModel| #[trigger] rises(rows).contains(p) implies p is PointsRise
            && is_so(p, rows, qualifiers) by {
            let at = rises(rows).index_of(p);
            if at < rises(less).len() {
                assert(rises(less)[at] == p);
                assert(rises(less).contains(p));
                let (i, j) = choose|i: int, j: int|
                    0 <= i < less.len() && j == i + 1 && j < less.len() && (
                    #[trigger] less[i]).race_points == p->above && (#[trigger] less[j]).race_points
                        == p->points && less[j].rank == p->PointsRise_rank && p->points > p->above;
                assert(rows[i] == less[i] && rows[j] == less[j]);
            } else {
                let n = rows.len() - 1;
                assert(rows[n] == rows.last());
                assert(rows[n - 1] == rows[rows.len() - 2]);
            }
        }
    }
}

proof fn absentees_are_so(rows: Seq<RowModel>, qualifiers: Seq<QualifierModel>)
    ensures
        forall|p: ProblemModel| #[trigger]
            absentees(rows, qualifiers).contains(p) ==> p is QualifierAbsent && is_so(
                p,
                rows,
                qualifiers,
            ),
    decreases qualifiers.len(),
{
    if qualifiers.len() > 0 {
        let less = qualifiers.drop_last();
        absentees_are_so(rows, less);
        assert forall|p: ProblemModel| #[trigger]
            absentees(rows, qualifiers).contains(p) implies p is QualifierAbsent && is_so(
            p,
            rows,
            qualifiers,
        ) by {
            let at = absentees(rows, qualifiers).index_of(p);
            if at < absentees(rows, less).len() {
                assert(absentees(rows, less)[at] == p);
                assert(absentees(rows, less).contains(p));
                let code = p->QualifierAbsent_code;
                let q = choose|q: int|
                    0 <= q < less.len() && (#[trigger] less[q]).player_code == code;
                assert(qualifiers[q] == less[q]);
            } else {
                let n = qualifiers.len() - 1;
                assert(qualifiers[n] == qualifiers.last());
                assert(!crate::qualification::has_code(rows, qualifiers.last().player_code));
            }
        }
    }
}

/// A problem is one that the live table has: it is too short and has so many
/// rows; the row at a position has another rank than its position, and every row
/// above it has its own; a player stands in it twice; a row has more points than
/// the row above it; or a row projects fewer points after its next match than it
/// has, or fewer at most than after that match.
pub open spec fn is_so_live(p: LiveProblemModel, rows: Seq<LiveRowModel>) -> bool {
    match p {
        LiveProblemModel::RowCount { rows: n } => n == rows.len() && n < 8,
        LiveProblemModel::RankGap { position, expected, got } => {
            &&& 1 <= position <= rows.len()
            &&& expected == position
            &&& rows[position - 1].rank == got
            &&& got != position
            &&& forall|k: int| 0 <= k < position - 1 ==> (#[trigger] rows[k]).rank == k + 1
        },
        LiveProblemModel::DuplicateCode { code } => exists|i: int, j: int|
            0 <= i < j < rows.len() && (#[trigger] rows[i]).player_code == code && (
            #[trigger] rows[j]).player_code == code,
        LiveProblemModel::PointsRise { rank, points, above } => exists|i: int, j: int|
            0 <= i < rows.len() && j == i + 1 && j < rows.len() && (#[trigger] rows[i]).live_points
                == above && (#[trigger] rows[j]).live_points == points && rows[j].rank == rank
                && points > above,
        LiveProblemModel::NextBelowLive { code, next, live } => exists|i: int|
            0 <= i < rows.len() && (#[trigger] rows[i]).player_code == code && rows[i].next_points
                == Some(next) && rows[i].live_points == live && next < live,
        LiveProblemModel::MaxBelowNext { code, max, next } => exists|i: int|
            0 <= i < rows.len() && (#[trigger] rows[i]).player_code == code && rows[i].next_points
                == Some(next) && rows[i].max_this_week == Some(max) && max < next,
    }
}

/// Everything that is reported of a live table is so.
pub proof fn what_is_reported_live_is_so(rows: Seq<LiveRowModel>, k: int)
    requires
        rows.len() <= u32::MAX,
        0 <= k < live_problems(rows).len(),
    ensures
        is_so_live(live_problems(rows)[k], rows),
{
    let gap = live_gap_from(rows, 0);
    let twice = live_duplicates(rows);
    let up = live_rises(rows);
    let low = projections(rows);
    let p = live_problems(rows)[k];
    live_gaps_are_so(rows, 0);
    live_duplicates_are_so(rows);
    live_rises_are_so(rows);
    projections_are_so(rows);
    if gap.contains(p) || twice.contains(p) || up.contains(p) || low.contains(p) {
    } else {
        assert(p == LiveProblemModel::RowCount { rows: rows.len() } && rows.len() < 8) by {
            let n = crate::parser::live_shortfall(rows).len() as int;
            if k >= n {
                let a = n + gap.len();
                let b = a + twice.len();
                let c = b + up.len();
                if k < a {
                    assert(gap[k - n] == p);
                } else if k < b {
                    assert(twice[k - a] == p);
                } else if k < c {
                    assert(up[k - b] == p);
                } else {
                    assert(low[k - c] == p);
                }
            }
        }
    }
}

proof fn live_gaps_are_so(rows: Seq<LiveRowModel>, from: int)
    requires
        rows.len() <= u32::MAX,
        0 <= from,
        forall|k: int| 0 <= k < from && k < rows.len() ==> (#[trigger] rows[k]).rank == k + 1,
    ensures
        forall|p: LiveProblemModel| #[trigger]
            live_gap_from(rows, from).contains(p) ==> is_so_live(p, rows),
    decreases rows.len() - from,
{
    if from < rows.len() && rows[from].rank == from + 1 {
        live_gaps_are_so(rows, from + 1);
        assert(live_gap_from(rows, from) == live_gap_from(rows, from + 1));
    } else if from < rows.len() {
        let gap = LiveProblemModel::RankGap {
            position: (from + 1) as nat,
            expected: (from + 1) as u32,
            got: rows[from].rank,
        };
        let found = live_gap_from(rows, from);
        assert(found =~= seq![gap]);
        assert forall|p: LiveProblemModel| #[trigger] found.contains(p) implies p == gap by {
            assert(found[found.index_of(p)] == p);
        }
        assert(is_so_live(gap, rows));
    }
}

proof fn live_duplicates_are_so(rows: Seq<LiveRowModel>)
    ensures
        forall|p: LiveProblemModel| #[trigger]
            live_duplicates(rows).contains(p) ==> p is DuplicateCode && is_so_live(p, rows),
    decreases rows.len(),
{
    if rows.len() > 0 {
        let less = rows.drop_last();
        live_duplicates_are_so(less);
        assert forall|p: LiveProblemModel| #[trigger]
            live_duplicates(rows).contains(p) implies p is DuplicateCode && is_so_live(p, rows) by {
            let at = live_duplicates(rows).index_of(p);
            if at < live_duplicates(less).len() {
                assert(live_duplicates(less)[at] == p);
                assert(live_duplicates(less).contains(p));
                let code = p->DuplicateCode_code;
                let (i, j) = choose|i: int, j: int|
                    0 <= i < j < less.len() && (#[trigger] less[i]).player_code == code && (
                    #[trigger] less[j]).player_code == code;
                assert(rows[i] == less[i] && rows[j] == less[j]);
            } else {
                let n = rows.len() - 1;
                assert(rows[n] == rows.last());
                let i = choose|i: int|
                    0 <= i < less.len() && (#[trigger] less[i]).player_code
                        == rows.last().player_code;
                assert(rows[i] == less[i]);
            }
        }
    }
}

proof fn live_rises_are_so(rows: Seq<LiveRowModel>)
    ensures
        forall|p: LiveProblemModel| #[trigger]
            live_rises(rows).contains(p) ==> p is PointsRise && is_so_live(p, rows),
    decreases rows.len(),
{
    if rows.len() >= 2 {
        let less = rows.drop_last();
        live_rises_are_so(less);
        assert forall|p: LiveProblemModel| #[trigger]
            live_rises(rows).contains(p) implies p is PointsRise && is_so_live(p, rows) by {
            let at = live_rises(rows).index_of(p);
            if at < live_rises(less).len() {
                assert(live_rises(less)[at] == p);
                assert(live_rises(less).contains(p));
                let (i, j) = choose|i: int, j: int|
                    0 <= i < less.len() && j == i + 1 && j < less.len() && (
                    #[trigger] less[i]).live_points == p->above && (#[trigger] less[j]).live_points
                        == p->points && less[j].rank == p->PointsRise_rank && p->points > p->above;
                assert(rows[i] == less[i] && rows[j] == less[j]);
            } else {
                let n = rows.len() - 1;
                assert(rows[n] == rows.last());
                assert(rows[n - 1] == rows[rows.len() - 2]);
            }
        }
    }
}

proof fn projections_are_so(rows: Seq<LiveRowModel>)
    ensures
        forall|p: LiveProblemModel| #[trigger]
            projections(rows).contains(p) ==> (p is NextBelowLive || p is MaxBelowNext)
                && is_so_live(p, rows),
    decreases rows.len(),
{
    if rows.len() > 0 {
        let less = rows.drop_last();
        let n = rows.len() - 1;
        projections_are_so(less);
        assert(rows[n] == rows.last());
        assert forall|p: LiveProblemModel| #[trigger] projections(rows).contains(p) implies (
        p is NextBelowLive || p is MaxBelowNext) && is_so_live(p, rows) by {
            let at = projections(rows).index_of(p);
            if at < projections(less).len() {
                assert(projections(less)[at] == p);
                assert(projections(less).contains(p));
                assert forall|i: int| 0 <= i < n implies #[trigger] less[i] == rows[i] by {}
            } else {
                let own = crate::parser::projection_problems(rows.last());
                assert(own[at - projections(less).len()] == p);
                assert(rows[n].player_code == rows.last().player_code);
            }
        }
    }
}

/// Whatever a table has against it is reported: how short it is, the first rank
/// that is not its row's position, every player who stands there again, every
/// rise in points, and every announced qualifier whom it lacks.
pub proof fn every_problem_is_reported(
    rows: Seq<RowModel>,
    qualifiers: Seq<QualifierModel>,
    i: int,
    j: int,
    q: int,
)
    requires
        rows.len() <= u32::MAX,
        0 <= i < j < rows.len(),
    ensures
        ({
            let all = problems_in(rows, qualifiers);
            &&& rows.len() < 10 ==> all.contains(ProblemModel::RowCount { rows: rows.len() })
            &&& rows[j].rank != j + 1 && (forall|k: int|
                0 <= k < j ==> (#[trigger] rows[k]).rank == k + 1) ==> all.contains(
                ProblemModel::RankGap {
                    position: (j + 1) as nat,
                    expected: (j + 1) as u32,
                    got: rows[j].rank,
                },
            )
            &&& rows[i].player_code == rows[j].player_code ==> all.contains(
                ProblemModel::DuplicatePlayer { code: rows[j].player_code },
            )
            &&& rows[j].race_points > rows[j - 1].race_points ==> all.contains(
                ProblemModel::PointsRise {
                    rank: rows[j].rank,
                    points: rows[j].race_points,
                    above: rows[j - 1].race_points,
                },
            )
            &&& 0 <= q < qualifiers.len() && (forall|k: int|
                0 <= k < rows.len() ==> (#[trigger] rows[k]).player_code
                    != qualifiers[q].player_code) ==> all.contains(
                ProblemModel::QualifierAbsent { code: qualifiers[q].player_code },
            )
        }),
{
    let all = problems_in(rows, qualifiers);
    let short = crate::source::shortfall(rows);
    let gap = rank_gap_from(rows, 0);
    let twice = duplicates(rows);
    let up = rises(rows);
    let absent = absentees(rows, qualifiers);
    assert forall|p: ProblemModel|
        short.contains(p) || gap.contains(p) || twice.contains(p) || up.contains(p)
            || absent.contains(p) implies #[trigger] all.contains(p) by {
        if short.contains(p) {
            assert(all[short.index_of(p)] == p);
        } else if gap.contains(p) {
            assert(all[short.len() + gap.index_of(p)] == p);
        } else if twice.contains(p) {
            assert(all[short.len() + gap.len() + twice.index_of(p)] == p);
        } else if up.contains(p) {
            assert(all[short.len() + gap.len() + twice.len() + up.index_of(p)] == p);
        } else {
            assert(all[short.len() + gap.len() + twice.len() + up.len() + absent.index_of(p)] == p);
        }
    }
    if rows.len() < 10 {
        assert(short[0] == ProblemModel::RowCount { rows: rows.len() });
    }
    if rows[j].rank != j + 1 && (forall|k: int|
        0 <= k < j ==> (#[trigger] rows[k]).rank == k + 1) {
        gap_is_reported(rows, 0, j);
        assert(gap[0] == ProblemModel::RankGap {
            position: (j + 1) as nat,
            expected: (j + 1) as u32,
            got: rows[j].rank,
        });
    }
    if rows[i].player_code == rows[j].player_code {
        repeats_are_reported(rows, i, j);
    }
    if rows[j].race_points > rows[j - 1].race_points {
        rises_are_reported(rows, j);
    }
    if 0 <= q < qualifiers.len() && (forall|k: int|
        0 <= k < rows.len() ==> (#[trigger] rows[k]).player_code != qualifiers[q].player_code) {
        absentees_are_reported(rows, qualifiers, q);
    }
}

proof fn gap_is_reported(rows: Seq<RowModel>, from: int, j: int)
    requires
        0 <= from <= j < rows.len(),
        rows.len() <= u32::MAX,
        rows[j].rank != j + 1,
        forall|k: int| from <= k < j ==> (#[trigger] rows[k]).rank == k + 1,
    ensures
        rank_gap_from(rows, from) == seq![
            ProblemModel::RankGap {
                position: (j + 1) as nat,
                expected: (j + 1) as u32,
                got: rows[j].rank,
            },
        ],
    decreases j - from,
{
    if from < j {
        assert(rows[from].rank == from + 1);
        gap_is_reported(rows, from + 1, j);
    }
}

proof fn repeats_are_reported(rows: Seq<RowModel>, i: int, j: int)
    requires
        0 <= i < j < rows.len(),
        rows[i].player_code == rows[j].player_code,
    ensures
        duplicates(rows).contains(ProblemModel::DuplicatePlayer { code: rows[j].player_code }),
    decreases rows.len(),
{
    let less = rows.drop_last();
    let p = ProblemModel::DuplicatePlayer { code: rows[j].player_code };
    if j < less.len() {
        repeats_are_reported(less, i, j);
        let at = duplicates(less).index_of(p);
        assert(duplicates(rows)[at] == p);
    } else {
        assert(less[i] == rows[i]);
        assert(crate::qualification::has_code(less, rows.last().player_code));
        assert(duplicates(rows).last() == p);
    }
}

proof fn rises_are_reported(rows: Seq<RowModel>, j: int)
    requires
        1 <= j < rows.len(),
        rows[j].race_points > rows[j - 1].race_points,
    ensures
        rises(rows).contains(
            ProblemModel::PointsRise {
                rank: rows[j].rank,
                points: rows[j].race_points,
                above: rows[j - 1].race_points,
            },
        ),
    decreases rows.len(),
{
    let less = rows.drop_last();
    let p = ProblemModel::PointsRise {
        rank: rows[j].rank,
        points: rows[j].race_points,
        above: rows[j - 1].race_points,
    };
    if j < less.len() {
        rises_are_reported(less, j);
        let at = rises(less).index_of(p);
        assert(rises(rows)[at] == p);
    } else {
        assert(rises(rows).last() == p);
    }
}

proof fn absentees_are_reported(rows: Seq<RowModel>, qualifiers: Seq<QualifierModel>, q: int)
    requires
        0 <= q < qualifiers.len(),
        forall|k: int|
            0 <= k < rows.len() ==> (#[trigger] rows[k]).player_code != qualifiers[q].player_code,
    ensures
        absentees(rows, qualifiers).contains(
            ProblemModel::QualifierAbsent { code: qualifiers[q].player_code },
        ),
    decreases qualifiers.len(),
{
    let less = qualifiers.drop_last();
    let p = ProblemModel::QualifierAbsent { code: qualifiers[q].player_code };
    if q < less.len() {
        absentees_are_reported(rows, less, q);
        let at = absentees(rows, less).index_of(p);
        assert(absentees(rows, qualifiers)[at] == p);
    } else {
        assert(absentees(rows, qualifiers).last() == p);
    }
}

/// Whatever a live table has against it is reported: how short it is, the first
/// rank that is not its row's position, every player who stands there again,
/// every rise in points, and every projection that goes down.
pub proof fn every_live_problem_is_reported(rows: Seq<LiveRowModel>, i: int, j: int)
    requires
        rows.len() <= u32::MAX,
        0 <= i < j < rows.len(),
    ensures
        ({
            let all = live_problems(rows);
            let row = rows[j];
            &&& rows.len() < 8 ==> all.contains(LiveProblemModel::RowCount { rows: rows.len() })
            &&& row.rank != j + 1 && (forall|k: int|
                0 <= k < j ==> (#[trigger] rows[k]).rank == k + 1) ==> all.contains(
                LiveProblemModel::RankGap {
                    position: (j + 1) as nat,
                    expected: (j + 1) as u32,
                    got: row.rank,
                },
            )
            &&& rows[i].player_code == row.player_code ==> all.contains(
                LiveProblemModel::DuplicateCode { code: row.player_code },
            )
            &&& row.live_points > rows[j - 1].live_points ==> all.contains(
                LiveProblemModel::PointsRise {
                    rank: row.rank,
                    points: row.live_points,
                    above: rows[j - 1].live_points,
                },
            )
            &&& row.next_points matches Some(next) ==> {
                &&& next < row.live_points ==> all.contains(
                    LiveProblemModel::NextBelowLive {
                        code: row.player_code,
                        next,
                        live: row.live_points,
                    },
                )
                &&& row.max_this_week matches Some(max) ==> (max < next ==> all.contains(
                    LiveProblemModel::MaxBelowNext { code: row.player_code, max, next },
                ))
            }
        }),
{
    let all = live_problems(rows);
    let short = crate::parser::live_shortfall(rows);
    let gap = live_gap_from(rows, 0);
    let twice = live_duplicates(rows);
    let up = live_rises(rows);
    let low = projections(rows);
    assert forall|p: LiveProblemModel|
        short.contains(p) || gap.contains(p) || twice.contains(p) || up.contains(p)
            || low.contains(p) implies #[trigger] all.contains(p) by {
        if short.contains(p) {
            assert(all[short.index_of(p)] == p);
        } else if gap.contains(p) {
            assert(all[short.len() + gap.index_of(p)] == p);
        } else if twice.contains(p) {
            assert(all[short.len() + gap.len() + twice.index_of(p)] == p);
        } else if up.contains(p) {
            assert(all[short.len() + gap.len() + twice.len() + up.index_of(p)] == p);
        } else {
            assert(all[short.len() + gap.len() + twice.len() + up.len() + low.index_of(p)] == p);
        }
    }
    if rows.len() < 8 {
        assert(short[0] == LiveProblemModel::RowCount { rows: rows.len() });
    }
    if rows[j].rank != j + 1 && (forall|k: int|
        0 <= k < j ==> (#[trigger] rows[k]).rank == k + 1) {
        live_gap_is_reported(rows, 0, j);
        assert(gap[0] == LiveProblemModel::RankGap {
            position: (j + 1) as nat,
            expected: (j + 1) as u32,
            got: rows[j].rank,
        });
    }
    if rows[i].player_code == rows[j].player_code {
        live_repeats_are_reported(rows, i, j);
    }
    if rows[j].live_points > rows[j - 1].live_points {
        live_rises_are_reported(rows, j);
    }
    projections_are_reported(rows, j);
    let own = crate::parser::projection_problems(rows[j]);
    if let Some(next) = rows[j].next_points {
        if next < rows[j].live_points {
            assert(own[0] is NextBelowLive);
            assert(low.contains(own[0]));
        }
        if let Some(max) = rows[j].max_this_week {
            if max < next {
                assert(own[own.len() - 1] is MaxBelowNext);
                assert(low.contains(own[own.len() - 1]));
            }
        }
    }
}

proof fn live_gap_is_reported(rows: Seq<LiveRowModel>, from: int, j: int)
    requires
        0 <= from <= j < rows.len(),
        rows.len() <= u32::MAX,
        rows[j].rank != j + 1,
        forall|k: int| from <= k < j ==> (#[trigger] rows[k]).rank == k + 1,
    ensures
        live_gap_from(rows, from) == seq![
            LiveProblemModel::RankGap {
                position: (j + 1) as nat,
                expected: (j + 1) as u32,
                got: rows[j].rank,
            },
        ],
    decreases j - from,
{
    if from < j {
        assert(rows[from].rank == from + 1);
        live_gap_is_reported(rows, from + 1, j);
    }
}

proof fn live_repeats_are_reported(rows: Seq<LiveRowModel>, i: int, j: int)
    requires
        0 <= i < j < rows.len(),
        rows[i].player_code == rows[j].player_code,
    ensures
        live_duplicates(rows).contains(LiveProblemModel::DuplicateCode { code: rows[j].player_code }),
    decreases rows.len(),
{
    let less = rows.drop_last();
    let p = LiveProblemModel::DuplicateCode { code: rows[j].player_code };
    if j < less.len() {
        live_repeats_are_reported(less, i, j);
        let at = live_duplicates(less).index_of(p);
        assert(live_duplicates(rows)[at] == p);
    } else {
        assert(less[i] == rows[i]);
        assert(crate::parser::lists_code(less, rows.last().player_code));
        assert(live_duplicates(rows).last() == p);
    }
}

proof fn live_rises_are_reported(rows: Seq<LiveRowModel>, j: int)
    requires
        1 <= j < rows.len(),
        rows[j].live_points > rows[j - 1].live_points,
    ensures
        live_rises(rows).contains(
            LiveProblemModel::PointsRise {
                rank: rows[j].rank,
                points: rows[j].live_points,
                above: rows[j - 1].live_points,
            },
        ),
    decreases rows.len(),
{
    let less = rows.drop_last();
    let p = LiveProblemModel::PointsRise {
        rank: rows[j].rank,
        points: rows[j].live_points,
        above: rows[j - 1].live_points,
    };
    if j < less.len() {
        live_rises_are_reported(less, j);
        let at = live_rises(less).index_of(p);
        assert(live_rises(rows)[at] == p);
    } else {
        assert(live_rises(rows).last() == p);
    }
}

proof fn projections_are_reported(rows: Seq<LiveRowModel>, j: int)
    requires
        0 <= j < rows.len(),
    ensures
        forall|k: int|
            0 <= k < crate::parser::projection_problems(rows[j]).len() ==> projections(
                rows,
            ).contains(#[trigger] crate::parser::projection_problems(rows[j])[k]),
    decreases rows.len(),
{
    let less = rows.drop_last();
    let own = crate::parser::projection_problems(rows[j]);
    assert forall|k: int| 0 <= k < own.len() implies projections(rows).contains(
        #[trigger] own[k],
    ) by {
        if j < less.len() {
            projections_are_reported(less, j);
            assert(less[j] == rows[j]);
            assert(projections(less).contains(own[k]));
            let at = projections(less).index_of(own[k]);
            assert(projections(rows)[at] == own[k]);
        } else {
            assert(projections(rows)[projections(less).len() + k] == own[k]);
        }
    }
}

} // verus!
