//! The Turin selection rule, applied to the table as it stands.

use vstd::hash_map::StringHashMap;
use vstd::hash_set::StringHashSet;
use vstd::prelude::*;

use crate::curated::{codes, Curated};
use crate::model::{rows_model, RaceRow, RowModel};
use crate::text::string_opt;

verus! {

#[derive(Debug, Clone, Copy, PartialEq, Eq, Structural)]
pub enum SeatBasis {
    RaceRank,
    GrandSlamChampion,
}

/// Seat-8 flavor lives only in `Selection::eighth_basis`; the eighth
/// player's state is just `Eighth`.
#[derive(Debug, Clone, Copy, PartialEq, Eq, Structural)]
pub enum Provisional {
    TopSeven,
    Eighth,
    FirstAlternate,
    NotSelected,
    Withdrawn,
}

pub struct Selection {
    pub eighth_basis: SeatBasis,
    pub eighth_code: Option<String>,
    pub alternate_code: Option<String>,
    pub by_code: StringHashMap<Provisional>,
    /// Signed points distance to the provisional qualification line.
    /// Empty when the Grand Slam champion provision is active: a single
    /// contiguous points line would be misleading then.
    pub margins: StringHashMap<i64>,
}

/// What a `Selection` says.
pub struct SelectionModel {
    pub eighth_basis: SeatBasis,
    pub eighth_code: Option<Seq<char>>,
    pub alternate_code: Option<Seq<char>>,
    pub by_code: Map<Seq<char>, Provisional>,
    pub margins: Map<Seq<char>, i64>,
}

impl View for Selection {
    type V = SelectionModel;

    open spec fn view(&self) -> SelectionModel {
        SelectionModel {
            eighth_basis: self.eighth_basis,
            eighth_code: string_opt(self.eighth_code),
            alternate_code: string_opt(self.alternate_code),
            by_code: self.by_code@,
            margins: self.margins@,
        }
    }
}

impl SelectionModel {
    /// A player's seat; a player that the rule does not speak of has none.
    pub open spec fn state(self, code: Seq<char>) -> Provisional {
        if self.by_code.contains_key(code) {
            self.by_code[code]
        } else {
            Provisional::NotSelected
        }
    }

    pub open spec fn margin(self, code: Seq<char>) -> Option<i64> {
        if self.margins.contains_key(code) {
            Some(self.margins[code])
        } else {
            None
        }
    }
}

impl Selection {
    pub fn state(&self, code: &str) -> (r: Provisional)
        ensures
            r == self@.state(code@),
    {
        match self.by_code.get(code) {
            Some(p) => *p,
            None => Provisional::NotSelected,
        }
    }

    pub fn margin(&self, code: &str) -> (r: Option<i64>)
        ensures
            r == self@.margin(code@),
    {
        match self.margins.get(code) {
            Some(m) => Some(*m),
            None => None,
        }
    }
}

// ---------------------------------------------------------------------------
// The rule
// ---------------------------------------------------------------------------

/// A row of the list carries the code.
pub open spec fn has_code(rows: Seq<RowModel>, code: Seq<char>) -> bool {
    exists|i: int| 0 <= i < rows.len() && (#[trigger] rows[i]).player_code == code
}

/// No two rows of the list carry the same code.
pub open spec fn no_duplicates(rows: Seq<RowModel>) -> bool {
    forall|i: int, j: int|
        0 <= i < j < rows.len() ==> (#[trigger] rows[i]).player_code != (
        #[trigger] rows[j]).player_code
}

/// The rows of the players who have not withdrawn, in the table's order.
pub open spec fn active(rows: Seq<RowModel>, withdrawn: Set<Seq<char>>) -> Seq<RowModel> {
    rows.filter(|r: RowModel| !withdrawn.contains(r.player_code))
}

/// The first `n` of a list, or all of it.
pub open spec fn first(rows: Seq<RowModel>, n: int) -> Seq<RowModel> {
    if rows.len() <= n {
        rows
    } else {
        rows.take(n)
    }
}

/// The rest of a list after its first `n`.
pub open spec fn beyond(rows: Seq<RowModel>, n: int) -> Seq<RowModel> {
    if rows.len() <= n {
        Seq::empty()
    } else {
        rows.skip(n)
    }
}

/// A champion of the year ranked 8 to 20 who is not among the top seven.
pub open spec fn eligible(
    row: RowModel,
    champions: Set<Seq<char>>,
    top_seven: Seq<RowModel>,
) -> bool {
    &&& 8 <= row.rank <= 20
    &&& champions.contains(row.player_code)
    &&& !has_code(top_seven, row.player_code)
}

/// The champions that the rule provides for: at most two, in the table's order.
pub open spec fn provided(rows: Seq<RowModel>, champions: Set<Seq<char>>) -> Seq<RowModel> {
    first(rows.filter(|r: RowModel| eligible(r, champions, first(rows, 7))), 2)
}

/// The list with each row left out whose code an earlier row carries.
pub open spec fn distinct(rows: Seq<RowModel>) -> Seq<RowModel>
    decreases rows.len(),
{
    if rows.len() == 0 {
        rows
    } else if has_code(rows.drop_last(), rows.last().player_code) {
        distinct(rows.drop_last())
    } else {
        distinct(rows.drop_last()).push(rows.last())
    }
}

/// The order of selection: the top seven, the champions provided for, and
/// everyone else, each player once.
pub open spec fn selection_order(
    rows: Seq<RowModel>,
    champions: Set<Seq<char>>,
    withdrawn: Set<Seq<char>>,
) -> Seq<RowModel> {
    let a = active(rows, withdrawn);
    distinct(first(a, 7) + provided(a, champions) + beyond(a, 7))
}

/// Where in the order a code stands.
pub open spec fn place(order: Seq<RowModel>, code: Seq<char>) -> Option<int>
    decreases order.len(),
{
    if order.len() == 0 {
        None
    } else {
        match place(order.drop_last(), code) {
            Some(i) => Some(i),
            None => if order.last().player_code == code {
                Some(order.len() - 1)
            } else {
                None
            },
        }
    }
}

/// What the `i`-th place of the order means, counted from zero.
pub open spec fn seat(i: int) -> Provisional {
    if i <= 6 {
        Provisional::TopSeven
    } else if i == 7 {
        Provisional::Eighth
    } else if i == 8 {
        Provisional::FirstAlternate
    } else {
        Provisional::NotSelected
    }
}

/// Selected players show their cushion over the first player out; chasers show
/// their deficit to the seat-8 holder.
pub open spec fn margin_at(order: Seq<RowModel>, i: int) -> int {
    if i < 8 {
        order[i].race_points - order[8].race_points
    } else {
        order[i].race_points - order[7].race_points
    }
}

pub open spec fn seats(order: Seq<RowModel>, withdrawn: Set<Seq<char>>) -> Map<
    Seq<char>,
    Provisional,
> {
    Map::new(
        |c: Seq<char>| withdrawn.contains(c) || place(order, c) is Some,
        |c: Seq<char>|
            match place(order, c) {
                Some(i) => seat(i),
                None => Provisional::Withdrawn,
            },
    )
}

/// The margins of the first `n` places of an order with a first player out.
pub open spec fn margins_of(order: Seq<RowModel>, n: int) -> Map<Seq<char>, i64> {
    Map::new(
        |c: Seq<char>| place(order.take(n), c) is Some,
        |c: Seq<char>| margin_at(order, place(order.take(n), c)->0) as i64,
    )
}

/// The provisional selection for a table, the year's champions and the
/// withdrawals.
pub open spec fn selection_of(
    rows: Seq<RowModel>,
    champions: Set<Seq<char>>,
    withdrawn: Set<Seq<char>>,
) -> SelectionModel {
    let order = selection_order(rows, champions, withdrawn);
    let basis = if order.len() > 7 && has_code(
        provided(active(rows, withdrawn), champions),
        order[7].player_code,
    ) {
        SeatBasis::GrandSlamChampion
    } else {
        SeatBasis::RaceRank
    };
    SelectionModel {
        eighth_basis: basis,
        eighth_code: if order.len() > 7 {
            Some(order[7].player_code)
        } else {
            None
        },
        alternate_code: if order.len() > 8 {
            Some(order[8].player_code)
        } else {
            None
        },
        by_code: seats(order, withdrawn),
        margins: if basis == SeatBasis::RaceRank && order.len() > 8 {
            margins_of(order, order.len() as int)
        } else {
            Map::empty()
        },
    }
}

// ---------------------------------------------------------------------------
// Its parts
// ---------------------------------------------------------------------------

/// What a list of borrowed rows says.
pub open spec fn picked(rows: Seq<&RaceRow>) -> Seq<RowModel> {
    rows.map_values(|r: &RaceRow| r@)
}

proof fn picked_push(rows: Seq<&RaceRow>, row: &RaceRow)
    ensures
        picked(rows.push(row)) == picked(rows).push(row@),
{
    assert(picked(rows.push(row)) =~= picked(rows).push(row@));
}

proof fn has_code_push(rows: Seq<RowModel>, row: RowModel, code: Seq<char>)
    ensures
        has_code(rows.push(row), code) <==> has_code(rows, code) || row.player_code == code,
{
    let more = rows.push(row);
    if has_code(rows, code) {
        let i = choose|i: int| 0 <= i < rows.len() && (#[trigger] rows[i]).player_code == code;
        assert(more[i].player_code == code);
    }
    assert(more[rows.len() as int] == row);
    if has_code(more, code) {
        let i = choose|i: int| 0 <= i < more.len() && (#[trigger] more[i]).player_code == code;
        if i < rows.len() {
            assert(rows[i].player_code == code);
        }
    }
}

/// Leaving repeats out keeps every code, repeats none, and changes nothing
/// where nothing was repeated.
pub proof fn distinct_keeps_each_code_once(rows: Seq<RowModel>)
    ensures
        no_duplicates(distinct(rows)),
        forall|c: Seq<char>| #[trigger] has_code(distinct(rows), c) <==> has_code(rows, c),
        no_duplicates(rows) ==> distinct(rows) == rows,
        distinct(rows).len() <= rows.len(),
    decreases rows.len(),
{
    if rows.len() > 0 {
        let less = rows.drop_last();
        let last = rows.last();
        distinct_keeps_each_code_once(less);
        assert(rows =~= less.push(last));
        assert forall|c: Seq<char>| #[trigger]
            has_code(distinct(rows), c) <==> has_code(rows, c) by {
            has_code_push(less, last, c);
            has_code_push(distinct(less), last, c);
        }
        if !has_code(less, last.player_code) {
            let d = distinct(less).push(last);
            assert forall|i: int, j: int| 0 <= i < j < d.len() implies (
            #[trigger] d[i]).player_code != (#[trigger] d[j]).player_code by {
                if j == d.len() - 1 && d[i].player_code == last.player_code {
                    assert(distinct(less)[i].player_code == last.player_code);
                    assert(has_code(distinct(less), last.player_code));
                }
            }
        }
        if no_duplicates(rows) {
            assert forall|i: int, j: int| 0 <= i < j < less.len() implies (
            #[trigger] less[i]).player_code != (#[trigger] less[j]).player_code by {
                assert(rows[i].player_code != rows[j].player_code);
            }
            if has_code(less, last.player_code) {
                let i = choose|i: int|
                    0 <= i < less.len() && (#[trigger] less[i]).player_code == last.player_code;
                assert(rows[i].player_code == rows[rows.len() - 1].player_code);
            }
        }
    }
}

/// A code stands where the order has it, and nowhere when the order lacks it.
pub proof fn place_is_where_the_code_stands(order: Seq<RowModel>, code: Seq<char>)
    ensures
        match place(order, code) {
            Some(i) => {
                &&& 0 <= i < order.len()
                &&& order[i].player_code == code
            },
            None => !has_code(order, code),
        },
    decreases order.len(),
{
    if order.len() > 0 {
        let less = order.drop_last();
        place_is_where_the_code_stands(less, code);
        assert(order =~= less.push(order.last()));
        has_code_push(less, order.last(), code);
        if let Some(i) = place(less, code) {
            assert(order[i] == less[i]);
        }
    }
}

/// In an order without repeats each row stands at its own place.
pub proof fn place_of_row(order: Seq<RowModel>, i: int)
    requires
        no_duplicates(order),
        0 <= i < order.len(),
    ensures
        place(order, order[i].player_code) == Some(i),
{
    place_is_where_the_code_stands(order, order[i].player_code);
    assert(has_code(order, order[i].player_code));
    let j = place(order, order[i].player_code)->0;
    if j < i {
        assert(order[j].player_code != order[i].player_code);
    } else if i < j {
        assert(order[i].player_code != order[j].player_code);
    }
}

fn active_rows<'a>(rows: &'a [RaceRow], withdrawn: &StringHashSet) -> (r: Vec<&'a RaceRow>)
    ensures
        picked(r@) == active(rows_model(rows@), withdrawn@),
{
    let ghost all = rows_model(rows@);
    let ghost keep = |r: RowModel| !withdrawn@.contains(r.player_code);
    let mut out: Vec<&'a RaceRow> = Vec::new();
    let mut i: usize = 0;
    proof {
        reveal(Seq::filter);
        assert(picked(out@) =~= all.take(0).filter(keep));
    }
    while i < rows.len()
        invariant
            i <= rows@.len(),
            all == rows_model(rows@),
            keep == (|r: RowModel| !withdrawn@.contains(r.player_code)),
            picked(out@) == all.take(i as int).filter(keep),
        decreases rows@.len() - i,
    {
        let row = &rows[i];
        proof {
            reveal(Seq::filter);
            assert(all.take(i + 1).drop_last() =~= all.take(i as int));
            assert(all.take(i + 1).last() == row@);
        }
        if !withdrawn.contains(row.player_code.as_str()) {
            proof {
                picked_push(out@, row);
            }
            out.push(row);
        }
        i += 1;
    }
    assert(all.take(i as int) =~= all);
    out
}

/// The codes of the first rows of a list, as a set.
spec fn codes_are(set: Set<Seq<char>>, rows: Seq<RowModel>) -> bool {
    forall|c: Seq<char>| #[trigger] set.contains(c) <==> has_code(rows, c)
}

fn codes_of_first(rows: &Vec<&RaceRow>, n: usize) -> (r: StringHashSet)
    requires
        n <= rows@.len(),
    ensures
        codes_are(r@, picked(rows@).take(n as int)),
{
    let ghost all = picked(rows@);
    let mut out = StringHashSet::new();
    let mut i: usize = 0;
    while i < n
        invariant
            i <= n <= rows@.len(),
            all == picked(rows@),
            codes_are(out@, all.take(i as int)),
        decreases n - i,
    {
        out.insert(rows[i].player_code.clone());
        proof {
            assert(all.take(i + 1) =~= all.take(i as int).push(all[i as int]));
            assert forall|c: Seq<char>| #[trigger]
                out@.contains(c) <==> has_code(all.take(i + 1), c) by {
                has_code_push(all.take(i as int), all[i as int], c);
            }
        }
        i += 1;
    }
    out
}

fn provided_rows<'a>(rows: &Vec<&'a RaceRow>, champions: &StringHashSet) -> (r: Vec<&'a RaceRow>)
    ensures
        picked(r@) == provided(picked(rows@), champions@),
{
    let ghost all = picked(rows@);
    let n: usize = if rows.len() < 7 {
        rows.len()
    } else {
        7
    };
    let top = codes_of_first(rows, n);
    assert(first(all, 7) =~= all.take(n as int));
    let ghost ok = |r: RowModel| eligible(r, champions@, first(all, 7));
    let mut out: Vec<&'a RaceRow> = Vec::new();
    let mut i: usize = 0;
    proof {
        reveal(Seq::filter);
        assert(picked(out@) =~= all.take(0).filter(ok));
    }
    while i < rows.len()
        invariant
            i <= rows@.len(),
            all == picked(rows@),
            codes_are(top@, first(all, 7)),
            ok == (|r: RowModel| eligible(r, champions@, first(all, 7))),
            picked(out@) == all.take(i as int).filter(ok),
        decreases rows@.len() - i,
    {
        let row: &'a RaceRow = rows[i];
        proof {
            reveal(Seq::filter);
            assert(all.take(i + 1).drop_last() =~= all.take(i as int));
            assert(all.take(i + 1).last() == row@);
        }
        let code = row.player_code.as_str();
        if 8 <= row.rank && row.rank <= 20 && champions.contains(code) && !top.contains(code) {
            proof {
                picked_push(out@, row);
            }
            out.push(row);
        }
        i += 1;
    }
    assert(all.take(i as int) =~= all);
    let ghost found = picked(out@);
    if out.len() > 2 {
        out.truncate(2);
        assert(picked(out@) =~= found.take(2));
    }
    out
}

fn distinct_rows<'a>(rows: &Vec<&'a RaceRow>) -> (r: Vec<&'a RaceRow>)
    ensures
        picked(r@) == distinct(picked(rows@)),
{
    let ghost all = picked(rows@);
    let mut seen = StringHashSet::new();
    let mut out: Vec<&'a RaceRow> = Vec::new();
    let mut i: usize = 0;
    assert(picked(out@) =~= distinct(all.take(0)));
    while i < rows.len()
        invariant
            i <= rows@.len(),
            all == picked(rows@),
            codes_are(seen@, all.take(i as int)),
            picked(out@) == distinct(all.take(i as int)),
        decreases rows@.len() - i,
    {
        let row: &'a RaceRow = rows[i];
        proof {
            assert(all.take(i + 1).drop_last() =~= all.take(i as int));
            assert(all.take(i + 1).last() == row@);
            assert(all.take(i + 1) =~= all.take(i as int).push(row@));
        }
        let new = seen.insert(row.player_code.clone());
        proof {
            assert forall|c: Seq<char>| #[trigger]
                seen@.contains(c) <==> has_code(all.take(i + 1), c) by {
                has_code_push(all.take(i as int), row@, c);
            }
        }
        if new {
            proof {
                picked_push(out@, row);
            }
            out.push(row);
        }
        i += 1;
    }
    assert(all.take(i as int) =~= all);
    out
}

fn seat_at(i: usize) -> (r: Provisional)
    ensures
        r == seat(i as int),
{
    if i <= 6 {
        Provisional::TopSeven
    } else if i == 7 {
        Provisional::Eighth
    } else if i == 8 {
        Provisional::FirstAlternate
    } else {
        Provisional::NotSelected
    }
}

/// Extending an order by a row with a new code puts that code last.
proof fn place_push(order: Seq<RowModel>, n: int, code: Seq<char>)
    requires
        no_duplicates(order),
        0 <= n < order.len(),
    ensures
        place(order.take(n + 1), code) == (if code == order[n].player_code {
            Some(n)
        } else {
            place(order.take(n), code)
        }),
{
    let less = order.take(n);
    let more = order.take(n + 1);
    assert(more.drop_last() =~= less);
    assert(more.last() == order[n]);
    if code == order[n].player_code {
        place_is_where_the_code_stands(less, code);
        if place(less, code) is Some {
            let i = place(less, code)->0;
            assert(order[i].player_code != order[n].player_code);
        }
    }
}

fn seat_map(order: &Vec<&RaceRow>, curated: &Curated) -> (r: StringHashMap<Provisional>)
    requires
        no_duplicates(picked(order@)),
    ensures
        r@ == seats(picked(order@), codes(curated.withdrawals@)),
{
    let ghost all = picked(order@);
    let ghost gone = curated.withdrawals@.map_values(
        |p: crate::curated::CuratedPlayer| p.code@,
    );
    let mut out: StringHashMap<Provisional> = StringHashMap::new();
    let mut i: usize = 0;
    assert(out@ =~= seats(all.take(0), gone.take(0).to_set()));
    while i < curated.withdrawals.len()
        invariant
            i <= curated.withdrawals@.len(),
            all == picked(order@),
            gone == curated.withdrawals@.map_values(|p: crate::curated::CuratedPlayer| p.code@),
            out@ == seats(all.take(0), gone.take(i as int).to_set()),
        decreases curated.withdrawals@.len() - i,
    {
        out.insert(curated.withdrawals[i].code.clone(), Provisional::Withdrawn);
        proof {
            let before = gone.take(i as int);
            let after = gone.take(i + 1);
            assert(after =~= before.push(gone[i as int]));
            assert forall|c: Seq<char>| after.contains(c) == (before.contains(c) || c
                == gone[i as int]) by {
                if before.contains(c) {
                    let k = before.index_of(c);
                    assert(after[k] == c);
                }
                if c == gone[i as int] {
                    assert(after[i as int] == c);
                }
            }
            assert(out@ =~= seats(all.take(0), after.to_set()));
        }
        i += 1;
    }
    let ghost withdrawn = codes(curated.withdrawals@);
    assert(gone.take(i as int) =~= gone);
    let mut k: usize = 0;
    while k < order.len()
        invariant
            k <= order@.len(),
            all == picked(order@),
            no_duplicates(all),
            out@ == seats(all.take(k as int), withdrawn),
        decreases order@.len() - k,
    {
        out.insert(order[k].player_code.clone(), seat_at(k));
        proof {
            assert forall|c: Seq<char>| #[trigger]
                place(all.take(k + 1), c) == (if c == all[k as int].player_code {
                Some(k as int)
            } else {
                place(all.take(k as int), c)
            }) by {
                place_push(all, k as int, c);
            }
            assert(out@ =~= seats(all.take(k + 1), withdrawn));
        }
        k += 1;
    }
    assert(all.take(k as int) =~= all);
    out
}

fn margin_map(order: &Vec<&RaceRow>) -> (r: StringHashMap<i64>)
    requires
        no_duplicates(picked(order@)),
        order@.len() > 8,
    ensures
        r@ == margins_of(picked(order@), order@.len() as int),
{
    let ghost all = picked(order@);
    let cushion_line = order[8].race_points as i64;
    let deficit_line = order[7].race_points as i64;
    let mut out: StringHashMap<i64> = StringHashMap::new();
    let mut k: usize = 0;
    assert(out@ =~= margins_of(all, 0));
    while k < order.len()
        invariant
            k <= order@.len(),
            order@.len() > 8,
            all == picked(order@),
            no_duplicates(all),
            cushion_line == all[8].race_points,
            deficit_line == all[7].race_points,
            out@ == margins_of(all, k as int),
        decreases order@.len() - k,
    {
        let points = order[k].race_points as i64;
        assert(points == all[k as int].race_points);
        let margin: i64 = if k < 8 {
            points - cushion_line
        } else {
            points - deficit_line
        };
        out.insert(order[k].player_code.clone(), margin);
        proof {
            assert forall|c: Seq<char>| #[trigger]
                place(all.take(k + 1), c) == (if c == all[k as int].player_code {
                Some(k as int)
            } else {
                place(all.take(k as int), c)
            }) by {
                place_push(all, k as int, c);
            }
            assert(out@ =~= margins_of(all, k + 1));
        }
        k += 1;
    }
    out
}

/// Whether a row of the list carries the code.
fn carries(rows: &Vec<&RaceRow>, code: &String) -> (r: bool)
    ensures
        r == has_code(picked(rows@), code@),
{
    let ghost all = picked(rows@);
    let mut i: usize = 0;
    while i < rows.len()
        invariant
            i <= rows@.len(),
            all == picked(rows@),
            forall|j: int| 0 <= j < i ==> (#[trigger] all[j]).player_code != code@,
        decreases rows@.len() - i,
    {
        assert(all[i as int] == rows@[i as int]@);
        if rows[i].player_code == *code {
            return true;
        }
        i += 1;
    }
    false
}

/// Apply the Turin selection rule provisionally to the current table
/// ("if the season ended now"):
///
/// 1. the top seven players by race rank;
/// 2. up to two current-year Grand Slam champions ranked 8–20, by rank;
/// 3. everyone else in rank order, skipping duplicates.
///
/// The first eight unique players are the provisional selections; the
/// ninth is the first alternate. Officially announced status is stored
/// separately (curated) and never inferred from points. This function is
/// pure: no clock, network, or storage.
pub fn select(rows: &[RaceRow], curated: &Curated) -> (r: Selection)
    ensures
        r@ == selection_of(
            rows_model(rows@),
            codes(curated.slam_champions@),
            codes(curated.withdrawals@),
        ),
{
    let withdrawn = curated.withdrawal_codes();
    let champions = curated.slam_champion_codes();
    let active = active_rows(rows, &withdrawn);
    let champs = provided_rows(&active, &champions);
    let ghost a = picked(active@);
    let ghost p = picked(champs@);

    let mut line: Vec<&RaceRow> = Vec::new();
    let mut i: usize = 0;
    assert(picked(line@) =~= first(a.take(0), 7));
    while i < active.len() && i < 7
        invariant
            i <= active@.len(),
            i <= 7,
            a == picked(active@),
            picked(line@) == a.take(i as int),
        decreases active@.len() - i,
    {
        proof {
            picked_push(line@, active@[i as int]);
        }
        line.push(active[i]);
        assert(a.take(i + 1) =~= a.take(i as int).push(a[i as int]));
        i += 1;
    }
    assert(picked(line@) =~= first(a, 7));
    let mut j: usize = 0;
    assert(picked(line@) =~= first(a, 7) + p.take(0));
    while j < champs.len()
        invariant
            j <= champs@.len(),
            p == picked(champs@),
            picked(line@) == first(a, 7) + p.take(j as int),
        decreases champs@.len() - j,
    {
        proof {
            picked_push(line@, champs@[j as int]);
        }
        line.push(champs[j]);
        assert(first(a, 7) + p.take(j + 1) =~= (first(a, 7) + p.take(j as int)).push(p[j as int]));
        j += 1;
    }
    assert(p.take(j as int) =~= p);
    let ghost front = first(a, 7) + p;
    let mut k: usize = i;
    assert(picked(line@) =~= front + a.subrange(i as int, k as int));
    while k < active.len()
        invariant
            i <= k <= active@.len(),
            a == picked(active@),
            picked(line@) == front + a.subrange(i as int, k as int),
        decreases active@.len() - k,
    {
        proof {
            picked_push(line@, active@[k as int]);
        }
        line.push(active[k]);
        assert(front + a.subrange(i as int, k + 1) =~= (front + a.subrange(
            i as int,
            k as int,
        )).push(a[k as int]));
        k += 1;
    }
    assert(a.subrange(i as int, k as int) =~= beyond(a, 7));
    let order = distinct_rows(&line);
    let ghost o = picked(order@);
    proof {
        distinct_keeps_each_code_once(picked(line@));
    }

    let eighth_code = if order.len() > 7 {
        Some(order[7].player_code.clone())
    } else {
        None
    };
    let alternate_code = if order.len() > 8 {
        Some(order[8].player_code.clone())
    } else {
        None
    };
    let eighth_basis = if order.len() > 7 && carries(&champs, &order[7].player_code) {
        SeatBasis::GrandSlamChampion
    } else {
        SeatBasis::RaceRank
    };
    let margins = if eighth_basis == SeatBasis::RaceRank && order.len() > 8 {
        margin_map(&order)
    } else {
        StringHashMap::new()
    };
    let by_code = seat_map(&order, curated);
    Selection { eighth_basis, eighth_code, alternate_code, by_code, margins }
}

// ---------------------------------------------------------------------------
// What the rule promises
// ---------------------------------------------------------------------------

/// Two rows of a filtered list come from two rows of the list, in its order.
proof fn filter_origin(
    rows: Seq<RowModel>,
    keep: spec_fn(RowModel) -> bool,
    i: int,
    j: int,
) -> (r: (int, int))
    requires
        0 <= i < j < rows.filter(keep).len(),
    ensures
        0 <= r.0 < r.1 < rows.len(),
        rows[r.0] == rows.filter(keep)[i],
        rows[r.1] == rows.filter(keep)[j],
    decreases rows.len(),
{
    reveal(Seq::filter);
    let less = rows.drop_last();
    if j < less.filter(keep).len() {
        filter_origin(less, keep, i, j)
    } else {
        let a = filter_source(less, keep, i);
        (a, rows.len() - 1)
    }
}

/// A row of a filtered list is a row of the list that passes the filter.
proof fn filter_source(rows: Seq<RowModel>, keep: spec_fn(RowModel) -> bool, i: int) -> (r: int)
    requires
        0 <= i < rows.filter(keep).len(),
    ensures
        0 <= r < rows.len(),
        rows[r] == rows.filter(keep)[i],
        keep(rows[r]),
    decreases rows.len(),
{
    reveal(Seq::filter);
    let less = rows.drop_last();
    if i < less.filter(keep).len() {
        filter_source(less, keep, i)
    } else {
        rows.len() - 1
    }
}

/// A row that passes the filter is in the filtered list.
proof fn filter_keeps(rows: Seq<RowModel>, keep: spec_fn(RowModel) -> bool, i: int) -> (r: int)
    requires
        0 <= i < rows.len(),
        keep(rows[i]),
    ensures
        0 <= r < rows.filter(keep).len(),
        rows.filter(keep)[r] == rows[i],
    decreases rows.len(),
{
    reveal(Seq::filter);
    let less = rows.drop_last();
    if i < less.len() {
        assert(less[i] == rows[i]);
        filter_keeps(less, keep, i)
    } else {
        rows.filter(keep).len() - 1
    }
}

/// Filtering repeats nothing.
proof fn filter_no_duplicates(rows: Seq<RowModel>, keep: spec_fn(RowModel) -> bool)
    requires
        no_duplicates(rows),
    ensures
        no_duplicates(rows.filter(keep)),
{
    let f = rows.filter(keep);
    assert forall|i: int, j: int| 0 <= i < j < f.len() implies (#[trigger] f[i]).player_code != (
    #[trigger] f[j]).player_code by {
        let (a, b) = filter_origin(rows, keep, i, j);
        assert(rows[a].player_code != rows[b].player_code);
    }
}

/// What leaving repeats out makes of the front of a list does not depend on
/// what follows.
proof fn distinct_front(front: Seq<RowModel>, rest: Seq<RowModel>)
    ensures
        distinct(front).len() <= distinct(front + rest).len(),
        distinct(front + rest).take(distinct(front).len() as int) == distinct(front),
    decreases rest.len(),
{
    if rest.len() == 0 {
        assert(front + rest =~= front);
        assert(distinct(front).take(distinct(front).len() as int) =~= distinct(front));
    } else {
        distinct_front(front, rest.drop_last());
        let all = front + rest;
        assert(all.drop_last() =~= front + rest.drop_last());
        let n = distinct(front).len() as int;
        assert(distinct(all).take(n) =~= distinct(all.drop_last()).take(n));
    }
}

proof fn has_code_add(a: Seq<RowModel>, b: Seq<RowModel>, code: Seq<char>)
    ensures
        has_code(a + b, code) <==> has_code(a, code) || has_code(b, code),
{
    let all = a + b;
    if has_code(a, code) {
        let i = choose|i: int| 0 <= i < a.len() && (#[trigger] a[i]).player_code == code;
        assert(all[i].player_code == code);
    }
    if has_code(b, code) {
        let i = choose|i: int| 0 <= i < b.len() && (#[trigger] b[i]).player_code == code;
        assert(all[a.len() + i].player_code == code);
    }
    if has_code(all, code) {
        let i = choose|i: int| 0 <= i < all.len() && (#[trigger] all[i]).player_code == code;
        if i < a.len() {
            assert(a[i].player_code == code);
        } else {
            assert(b[i - a.len()].player_code == code);
        }
    }
}

/// A champion provided for is an active player outside the top seven.
proof fn provided_source(a: Seq<RowModel>, champions: Set<Seq<char>>, i: int) -> (r: int)
    requires
        0 <= i < provided(a, champions).len(),
    ensures
        7 <= r < a.len(),
        a[r] == provided(a, champions)[i],
        eligible(a[r], champions, first(a, 7)),
{
    let ok = |r: RowModel| eligible(r, champions, first(a, 7));
    let r = filter_source(a, ok, i);
    if r < 7 {
        assert(first(a, 7)[r].player_code == a[r].player_code);
    }
    r
}

/// Every player has one place in the order, and the place decides the seat:
/// the first seven are in, then come the eighth seat, the first alternate and
/// the players not selected.
pub proof fn each_player_has_one_place(
    rows: Seq<RowModel>,
    champions: Set<Seq<char>>,
    withdrawn: Set<Seq<char>>,
)
    ensures
        no_duplicates(selection_order(rows, champions, withdrawn)),
        forall|i: int|
            0 <= i < selection_order(rows, champions, withdrawn).len() ==> selection_of(
                rows,
                champions,
                withdrawn,
            ).state((#[trigger] selection_order(rows, champions, withdrawn)[i]).player_code) == seat(
                i,
            ),
{
    let a = active(rows, withdrawn);
    let order = selection_order(rows, champions, withdrawn);
    distinct_keeps_each_code_once(first(a, 7) + provided(a, champions) + beyond(a, 7));
    assert forall|i: int| 0 <= i < order.len() implies selection_of(
        rows,
        champions,
        withdrawn,
    ).state((#[trigger] order[i]).player_code) == seat(i) by {
        place_of_row(order, i);
    }
}

/// The players in the order are those of the table who have not withdrawn.
pub proof fn everyone_active_has_a_place(
    rows: Seq<RowModel>,
    champions: Set<Seq<char>>,
    withdrawn: Set<Seq<char>>,
    code: Seq<char>,
)
    ensures
        has_code(selection_order(rows, champions, withdrawn), code) <==> has_code(rows, code)
            && !withdrawn.contains(code),
{
    let keep = |r: RowModel| !withdrawn.contains(r.player_code);
    let a = active(rows, withdrawn);
    let p = provided(a, champions);
    let line = first(a, 7) + p + beyond(a, 7);
    distinct_keeps_each_code_once(line);
    has_code_add(first(a, 7) + p, beyond(a, 7), code);
    has_code_add(first(a, 7), p, code);
    has_code_add(first(a, 7), beyond(a, 7), code);
    assert(first(a, 7) + beyond(a, 7) =~= a);
    if has_code(p, code) {
        let i = choose|i: int| 0 <= i < p.len() && (#[trigger] p[i]).player_code == code;
        let k = provided_source(a, champions, i);
        assert(a[k].player_code == code);
    }
    if has_code(a, code) {
        let i = choose|i: int| 0 <= i < a.len() && (#[trigger] a[i]).player_code == code;
        let k = filter_source(rows, keep, i);
        assert(rows[k].player_code == code);
    }
    if has_code(rows, code) && !withdrawn.contains(code) {
        let i = choose|i: int| 0 <= i < rows.len() && (#[trigger] rows[i]).player_code == code;
        let k = filter_keeps(rows, keep, i);
        assert(a[k].player_code == code);
    }
}

/// A player who has withdrawn is shown as withdrawn, holds no seat and has no
/// margin.
pub proof fn withdrawn_players_are_never_selected(
    rows: Seq<RowModel>,
    champions: Set<Seq<char>>,
    withdrawn: Set<Seq<char>>,
    code: Seq<char>,
)
    requires
        withdrawn.contains(code),
    ensures
        selection_of(rows, champions, withdrawn).state(code) == Provisional::Withdrawn,
        selection_of(rows, champions, withdrawn).margin(code) is None,
        selection_of(rows, champions, withdrawn).eighth_code != Some(code),
        selection_of(rows, champions, withdrawn).alternate_code != Some(code),
{
    let order = selection_order(rows, champions, withdrawn);
    everyone_active_has_a_place(rows, champions, withdrawn, code);
    place_is_where_the_code_stands(order, code);
    assert(order.take(order.len() as int) =~= order);
    if order.len() > 7 {
        assert(order[7].player_code != code);
    }
    if order.len() > 8 {
        assert(order[8].player_code != code);
    }
}

/// In a table without repeats the first seven active players are the top
/// seven.
pub proof fn top_seven_are_the_first_seven(
    rows: Seq<RowModel>,
    champions: Set<Seq<char>>,
    withdrawn: Set<Seq<char>>,
    i: int,
)
    requires
        no_duplicates(rows),
        0 <= i < 7,
        i < active(rows, withdrawn).len(),
    ensures
        selection_of(rows, champions, withdrawn).state(active(rows, withdrawn)[i].player_code)
            == Provisional::TopSeven,
{
    let keep = |r: RowModel| !withdrawn.contains(r.player_code);
    let a = active(rows, withdrawn);
    let t = first(a, 7);
    let order = selection_order(rows, champions, withdrawn);
    filter_no_duplicates(rows, keep);
    assert forall|x: int, y: int| 0 <= x < y < t.len() implies (#[trigger] t[x]).player_code != (
    #[trigger] t[y]).player_code by {
        assert(a[x].player_code != a[y].player_code);
    }
    distinct_keeps_each_code_once(t);
    distinct_front(t, provided(a, champions) + beyond(a, 7));
    assert(t + (provided(a, champions) + beyond(a, 7)) =~= t + provided(a, champions) + beyond(
        a,
        7,
    ));
    assert(order[i] == order.take(t.len() as int)[i]);
    each_player_has_one_place(rows, champions, withdrawn);
}

/// Without an eligible champion the seats follow the table: the order is that
/// of the active players, and the eighth seat goes by race rank.
pub proof fn without_a_champion_seats_follow_the_table(
    rows: Seq<RowModel>,
    champions: Set<Seq<char>>,
    withdrawn: Set<Seq<char>>,
)
    requires
        no_duplicates(rows),
        provided(active(rows, withdrawn), champions).len() == 0,
    ensures
        selection_order(rows, champions, withdrawn) == active(rows, withdrawn),
        selection_of(rows, champions, withdrawn).eighth_basis == SeatBasis::RaceRank,
{
    let a = active(rows, withdrawn);
    let p = provided(a, champions);
    filter_no_duplicates(rows, |r: RowModel| !withdrawn.contains(r.player_code));
    distinct_keeps_each_code_once(a);
    assert(first(a, 7) + p + beyond(a, 7) =~= a);
}

/// With an eligible champion the eighth seat is the best-ranked one's, whatever
/// the points of the player ranked eighth, and no margins are shown. The first
/// alternate is the second eligible champion if there is one, else the first
/// active player after the top seven, unless that is the champion.
pub proof fn a_champion_takes_seat_eight(
    rows: Seq<RowModel>,
    champions: Set<Seq<char>>,
    withdrawn: Set<Seq<char>>,
)
    requires
        no_duplicates(rows),
        provided(active(rows, withdrawn), champions).len() > 0,
    ensures
        ({
            let a = active(rows, withdrawn);
            let p = provided(a, champions);
            let s = selection_of(rows, champions, withdrawn);
            &&& s.eighth_basis == SeatBasis::GrandSlamChampion
            &&& s.eighth_code == Some(p[0].player_code)
            &&& s.state(p[0].player_code) == Provisional::Eighth
            &&& s.margins == Map::<Seq<char>, i64>::empty()
            &&& p.len() == 2 ==> s.alternate_code == Some(p[1].player_code)
            &&& p.len() == 1 && a[7].player_code != p[0].player_code ==> s.alternate_code == Some(
                a[7].player_code,
            )
        }),
{
    let keep = |r: RowModel| !withdrawn.contains(r.player_code);
    let a = active(rows, withdrawn);
    let ok = |r: RowModel| eligible(r, champions, first(a, 7));
    let p = provided(a, champions);
    let t = first(a, 7);
    let order = selection_order(rows, champions, withdrawn);
    filter_no_duplicates(rows, keep);
    filter_no_duplicates(a, ok);
    let _ = provided_source(a, champions, 0);
    let front = t + p;
    assert forall|x: int, y: int| 0 <= x < y < front.len() implies (
    #[trigger] front[x]).player_code != (#[trigger] front[y]).player_code by {
        if y < 7 {
            assert(a[x].player_code != a[y].player_code);
        } else if x >= 7 {
            assert(a.filter(ok)[x - 7].player_code != a.filter(ok)[y - 7].player_code);
        } else {
            let k = provided_source(a, champions, y - 7);
            assert(t[x].player_code == front[x].player_code);
        }
    }
    distinct_keeps_each_code_once(front);
    distinct_front(front, beyond(a, 7));
    assert(order.take(front.len() as int) == front);
    assert(order[7] == order.take(front.len() as int)[7]);
    assert(order[7] == p[0]);
    assert(has_code(p, p[0].player_code));
    each_player_has_one_place(rows, champions, withdrawn);
    if p.len() == 2 {
        assert(order[8] == order.take(front.len() as int)[8]);
    }
    if p.len() == 1 && a[7].player_code != p[0].player_code {
        let longer = front.push(a[7]);
        assert(longer.drop_last() =~= front);
        if has_code(front, a[7].player_code) {
            let x = choose|x: int|
                0 <= x < front.len() && (#[trigger] front[x]).player_code == a[7].player_code;
            if x < 7 {
                assert(a[x].player_code != a[7].player_code);
            }
        }
        assert(distinct(longer) == front.push(a[7]));
        let rest = beyond(a, 7).skip(1);
        assert(longer + rest =~= front + beyond(a, 7));
        distinct_front(longer, rest);
        assert(order[8] == order.take(9)[8]);
    }
}

/// The champion provision holds exactly when the eighth seat is taken by a
/// champion provided for; the margins are then empty, and otherwise every
/// player in an order with a first alternate has one.
pub proof fn margins_are_shown_only_by_race_rank(
    rows: Seq<RowModel>,
    champions: Set<Seq<char>>,
    withdrawn: Set<Seq<char>>,
    i: int,
)
    requires
        0 <= i < selection_order(rows, champions, withdrawn).len(),
    ensures
        ({
            let order = selection_order(rows, champions, withdrawn);
            let s = selection_of(rows, champions, withdrawn);
            s.margin(order[i].player_code) == (if s.eighth_basis == SeatBasis::RaceRank
                && order.len() > 8 {
                Some(margin_at(order, i) as i64)
            } else {
                None
            })
        }),
{
    let order = selection_order(rows, champions, withdrawn);
    each_player_has_one_place(rows, champions, withdrawn);
    place_of_row(order, i);
    assert(order.take(order.len() as int) =~= order);
}

/// In a table without repeats and with points that never rise, a selected
/// player's margin is never negative and a chaser's never positive.
pub proof fn margins_point_the_right_way(
    rows: Seq<RowModel>,
    champions: Set<Seq<char>>,
    withdrawn: Set<Seq<char>>,
    i: int,
)
    requires
        no_duplicates(rows),
        forall|x: int, y: int|
            0 <= x < y < rows.len() ==> (#[trigger] rows[x]).race_points >= (
            #[trigger] rows[y]).race_points,
        0 <= i < selection_order(rows, champions, withdrawn).len(),
    ensures
        match selection_of(rows, champions, withdrawn).margin(
            selection_order(rows, champions, withdrawn)[i].player_code,
        ) {
            Some(m) => if i < 8 {
                m >= 0
            } else {
                m <= 0
            },
            None => true,
        },
{
    let keep = |r: RowModel| !withdrawn.contains(r.player_code);
    let a = active(rows, withdrawn);
    let order = selection_order(rows, champions, withdrawn);
    let s = selection_of(rows, champions, withdrawn);
    margins_are_shown_only_by_race_rank(rows, champions, withdrawn, i);
    if s.eighth_basis == SeatBasis::RaceRank && order.len() > 8 {
        if provided(a, champions).len() > 0 {
            a_champion_takes_seat_eight(rows, champions, withdrawn);
        }
        without_a_champion_seats_follow_the_table(rows, champions, withdrawn);
        if i < 8 {
            let (x, y) = filter_origin(rows, keep, i, 8);
            assert(rows[x].race_points >= rows[y].race_points);
        } else {
            let (x, y) = filter_origin(rows, keep, 7, i);
            assert(rows[x].race_points >= rows[y].race_points);
        }
    }
}

// ---------------------------------------------------------------------------
// The rule read from the table alone
// ---------------------------------------------------------------------------

/// Where no row passes, the filtered list is empty.
proof fn filter_none(rows: Seq<RowModel>, keep: spec_fn(RowModel) -> bool)
    requires
        forall|i: int| 0 <= i < rows.len() ==> !keep(#[trigger] rows[i]),
    ensures
        rows.filter(keep).len() == 0,
{
    if rows.filter(keep).len() > 0 {
        let k = filter_source(rows, keep, 0);
        assert(!keep(rows[k]));
    }
}

/// The first row that passes comes first in the filtered list, the next that
/// passes second, and where none follows there is no second.
proof fn filter_front(rows: Seq<RowModel>, keep: spec_fn(RowModel) -> bool, k: int, m: int)
    requires
        0 <= k < m <= rows.len(),
        keep(rows[k]),
        forall|j: int| 0 <= j < m && j != k ==> !keep(#[trigger] rows[j]),
        m < rows.len() ==> keep(rows[m]),
    ensures
        rows.filter(keep).len() >= 1,
        rows.filter(keep)[0] == rows[k],
        m < rows.len() ==> rows.filter(keep).len() >= 2 && rows.filter(keep)[1] == rows[m],
        m == rows.len() ==> rows.filter(keep).len() == 1,
    decreases rows.len(),
{
    reveal(Seq::filter);
    let less = rows.drop_last();
    let n = rows.len() - 1;
    assert forall|j: int| 0 <= j < n implies #[trigger] less[j] == rows[j] by {}
    if k == n {
        assert forall|j: int| 0 <= j < less.len() implies !keep(#[trigger] less[j]) by {
            assert(!keep(rows[j]));
        }
        filter_none(less, keep);
    } else {
        let end = if m > n {
            n
        } else {
            m
        };
        assert forall|j: int| 0 <= j < end && j != k implies !keep(#[trigger] less[j]) by {
            assert(!keep(rows[j]));
        }
        if m > n {
            assert(!keep(rows[n]));
        }
        filter_front(less, keep, k, end);
    }
}

/// The first places of the order: the top seven, then the champions provided
/// for, then the players left in the table's order.
proof fn order_front(a: Seq<RowModel>, champions: Set<Seq<char>>)
    requires
        no_duplicates(a),
        provided(a, champions).len() > 0,
    ensures
        ({
            let p = provided(a, champions);
            let order = distinct(first(a, 7) + p + beyond(a, 7));
            &&& a.len() > 7
            &&& order.len() >= 7 + p.len()
            &&& forall|i: int| 0 <= i < 7 ==> #[trigger] order[i] == a[i]
            &&& order[7] == p[0]
            &&& p.len() == 2 ==> order[8] == p[1]
            &&& p.len() == 1 && a[7] != p[0] ==> order.len() > 8 && order[8] == a[7]
            &&& p.len() == 1 && a[7] == p[0] && a.len() > 8 ==> order.len() > 8 && order[8] == a[8]
            &&& p.len() == 1 && a.len() == 8 ==> order.len() == 8
        }),
{
    let ok = |r: RowModel| eligible(r, champions, first(a, 7));
    let p = provided(a, champions);
    let t = first(a, 7);
    let front = t + p;
    let line = front + beyond(a, 7);
    let order = distinct(line);
    let k = provided_source(a, champions, 0);
    filter_no_duplicates(a, ok);
    assert forall|x: int, y: int| 0 <= x < y < front.len() implies (
    #[trigger] front[x]).player_code != (#[trigger] front[y]).player_code by {
        if y < 7 {
            assert(a[x].player_code != a[y].player_code);
        } else if x >= 7 {
            assert(a.filter(ok)[x - 7].player_code != a.filter(ok)[y - 7].player_code);
        } else {
            let z = provided_source(a, champions, y - 7);
            assert(t[x].player_code == front[x].player_code);
        }
    }
    distinct_keeps_each_code_once(front);
    distinct_front(front, beyond(a, 7));
    let n = front.len() as int;
    assert(order.take(n) == front);
    assert forall|i: int| 0 <= i < 7 implies #[trigger] order[i] == a[i] by {
        assert(order[i] == order.take(n)[i]);
        assert(front[i] == t[i]);
    }
    assert(order[7] == order.take(n)[7]);
    assert(front[7] == p[0]);
    if p.len() == 2 {
        assert(order[8] == order.take(n)[8]);
        assert(front[8] == p[1]);
    }
    if p.len() == 1 && k != 7 {
        assert(a[7].player_code != a[k].player_code);
        let longer = front.push(a[7]);
        assert(longer.drop_last() =~= front);
        if has_code(front, a[7].player_code) {
            let x = choose|x: int|
                0 <= x < front.len() && (#[trigger] front[x]).player_code == a[7].player_code;
            if x < 7 {
                assert(a[x].player_code != a[7].player_code);
            }
        }
        assert(distinct(longer) == front.push(a[7]));
        let rest = beyond(a, 7).skip(1);
        assert(longer + rest =~= line);
        distinct_front(longer, rest);
        assert(order[8] == order.take(9)[8]);
    }
    if p.len() == 1 && k == 7 {
        let again = front.push(a[7]);
        assert(again.drop_last() =~= front);
        assert(front[7].player_code == a[7].player_code);
        assert(has_code(front, a[7].player_code));
        assert(distinct(again) == front);
        if a.len() == 8 {
            assert(again =~= line);
        } else {
            let longer = again.push(a[8]);
            assert(longer.drop_last() =~= again);
            if has_code(again, a[8].player_code) {
                let x = choose|x: int|
                    0 <= x < again.len() && (#[trigger] again[x]).player_code == a[8].player_code;
                if x < 7 {
                    assert(a[x].player_code != a[8].player_code);
                } else {
                    assert(a[7].player_code != a[8].player_code);
                }
            }
            assert(distinct(longer) == front.push(a[8]));
            let rest = beyond(a, 7).skip(2);
            assert(longer + rest =~= line);
            distinct_front(longer, rest);
            assert(order[8] == order.take(9)[8]);
        }
    }
    if k != 7 {
        assert(a[7].player_code != a[k].player_code);
    }
}

/// The champions provided for, found by looking down the table after its first
/// seven.
proof fn provided_by_position(a: Seq<RowModel>, champions: Set<Seq<char>>, k: int, m: int)
    requires
        no_duplicates(a),
        7 <= k < m <= a.len(),
        8 <= a[k].rank <= 20,
        champions.contains(a[k].player_code),
        forall|j: int|
            7 <= j < m && j != k ==> !(8 <= (#[trigger] a[j]).rank <= 20 && champions.contains(
                a[j].player_code,
            )),
        m < a.len() ==> 8 <= a[m].rank <= 20 && champions.contains(a[m].player_code),
    ensures
        provided(a, champions)[0] == a[k],
        m < a.len() ==> provided(a, champions).len() == 2 && provided(a, champions)[1] == a[m],
        m == a.len() ==> provided(a, champions).len() == 1,
{
    let t = first(a, 7);
    let ok = |r: RowModel| eligible(r, champions, t);
    assert forall|j: int| 7 <= j < a.len() implies !has_code(t, (#[trigger] a[j]).player_code) by {
        if has_code(t, a[j].player_code) {
            let x = choose|x: int|
                0 <= x < t.len() && (#[trigger] t[x]).player_code == a[j].player_code;
            assert(a[x].player_code != a[j].player_code);
        }
    }
    assert forall|j: int| 0 <= j < m && j != k implies !ok(#[trigger] a[j]) by {
        if j < 7 {
            assert(t[j].player_code == a[j].player_code);
        }
    }
    assert(!has_code(t, a[k].player_code));
    assert(ok(a[k]));
    if m < a.len() {
        assert(!has_code(t, a[m].player_code));
        assert(ok(a[m]));
    }
    filter_front(a, ok, k, m);
}

proof fn no_champion_by_position(a: Seq<RowModel>, champions: Set<Seq<char>>)
    requires
        no_duplicates(a),
        forall|j: int|
            7 <= j < a.len() ==> !(8 <= (#[trigger] a[j]).rank <= 20 && champions.contains(
                a[j].player_code,
            )),
    ensures
        provided(a, champions).len() == 0,
{
    let t = first(a, 7);
    let ok = |r: RowModel| eligible(r, champions, t);
    assert forall|j: int| 0 <= j < a.len() implies !ok(#[trigger] a[j]) by {
        if j < 7 {
            assert(t[j].player_code == a[j].player_code);
        }
    }
    filter_none(a, ok);
}

/// Of the players who have not withdrawn, in the table's order: the first seven
/// are the top seven. If one of those after them is a Grand Slam champion whose
/// rank is 8 to 20, the first such one, `k`, takes seat 8 as a champion; the
/// first alternate is the next such one, `m`, and where there is none (`m` is
/// then the number of players) the first player after the top seven who is not
/// the champion. Nobody has a margin, everyone else is not selected, and who
/// has withdrawn is shown so.
pub proof fn seats_with_a_champion(
    rows: Seq<RowModel>,
    champions: Set<Seq<char>>,
    withdrawn: Set<Seq<char>>,
    k: int,
    m: int,
)
    requires
        forall|i: int, j: int|
            0 <= i < j < rows.len() ==> (#[trigger] rows[i]).player_code != (
            #[trigger] rows[j]).player_code,
        ({
            let a = rows.filter(|r: RowModel| !withdrawn.contains(r.player_code));
            &&& 7 <= k < m <= a.len()
            &&& 8 <= a[k].rank <= 20 && champions.contains(a[k].player_code)
            &&& forall|j: int|
                7 <= j < m && j != k ==> !(8 <= (#[trigger] a[j]).rank <= 20 && champions.contains(
                    a[j].player_code,
                ))
            &&& m < a.len() ==> 8 <= a[m].rank <= 20 && champions.contains(a[m].player_code)
        }),
    ensures
        ({
            let a = rows.filter(|r: RowModel| !withdrawn.contains(r.player_code));
            let s = selection_of(rows, champions, withdrawn);
            let next = if m < a.len() {
                m
            } else if k > 7 {
                7
            } else {
                8
            };
            &&& s.eighth_basis == SeatBasis::GrandSlamChampion
            &&& s.eighth_code == Some(a[k].player_code)
            &&& s.alternate_code == (if next < a.len() {
                Some(a[next].player_code)
            } else {
                None
            })
            &&& forall|i: int|
                0 <= i < a.len() ==> s.state((#[trigger] a[i]).player_code) == (if i < 7 {
                    Provisional::TopSeven
                } else if i == k {
                    Provisional::Eighth
                } else if i == next {
                    Provisional::FirstAlternate
                } else {
                    Provisional::NotSelected
                })
            &&& forall|c: Seq<char>|
                withdrawn.contains(c) ==> #[trigger] s.state(c) == Provisional::Withdrawn
            &&& forall|c: Seq<char>| (#[trigger] s.margin(c)) is None
        }),
{
    let keep = |r: RowModel| !withdrawn.contains(r.player_code);
    let a = rows.filter(keep);
    assert(a == active(rows, withdrawn));
    filter_no_duplicates(rows, keep);
    provided_by_position(a, champions, k, m);
    order_front(a, champions);
    let p = provided(a, champions);
    let order = selection_order(rows, champions, withdrawn);
    let s = selection_of(rows, champions, withdrawn);
    assert(has_code(p, p[0].player_code));
    each_player_has_one_place(rows, champions, withdrawn);
    if k != 7 {
        assert(a[7].player_code != a[k].player_code);
    }
    let next = if m < a.len() {
        m
    } else if k > 7 {
        7
    } else {
        8
    };
    assert(next < a.len() ==> order.len() > 8 && order[8] == a[next]);
    assert forall|i: int| 0 <= i < a.len() implies s.state((#[trigger] a[i]).player_code) == (if i
        < 7 {
        Provisional::TopSeven
    } else if i == k {
        Provisional::Eighth
    } else if i == next {
        Provisional::FirstAlternate
    } else {
        Provisional::NotSelected
    }) by {
        let code = a[i].player_code;
        let from = filter_source(rows, keep, i);
        assert(rows[from].player_code == code);
        assert(has_code(rows, code));
        everyone_active_has_a_place(rows, champions, withdrawn, code);
        let at = choose|at: int| 0 <= at < order.len() && (#[trigger] order[at]).player_code == code;
        assert(s.state(order[at].player_code) == seat(at));
        if at < 7 {
            assert(order[at] == a[at]);
            if at != i {
                assert(a[at].player_code != a[i].player_code);
            }
        } else if at == 7 {
            if k != i {
                assert(a[k].player_code != a[i].player_code);
            }
        } else if at == 8 {
            if next < a.len() && next != i {
                assert(a[next].player_code != a[i].player_code);
            }
        }
        if i < 7 {
            assert(order[i] == a[i]);
            place_of_row(order, i);
            place_of_row(order, at);
        } else if i == k {
            place_of_row(order, 7);
            place_of_row(order, at);
        } else if i == next {
            place_of_row(order, 8);
            place_of_row(order, at);
        }
    }
    assert forall|c: Seq<char>| withdrawn.contains(c) implies #[trigger] s.state(c)
        == Provisional::Withdrawn by {
        withdrawn_players_are_never_selected(rows, champions, withdrawn, c);
    }
}

/// Of the players who have not withdrawn, in the table's order: where nobody
/// after the first seven is a Grand Slam champion whose rank is 8 to 20, the
/// seats follow the table, the eighth by race rank. With a first alternate, the
/// first eight have as margin their points above the ninth's, the others theirs
/// below the eighth's; without one nobody has a margin.
pub proof fn seats_without_a_champion(
    rows: Seq<RowModel>,
    champions: Set<Seq<char>>,
    withdrawn: Set<Seq<char>>,
)
    requires
        forall|i: int, j: int|
            0 <= i < j < rows.len() ==> (#[trigger] rows[i]).player_code != (
            #[trigger] rows[j]).player_code,
        ({
            let a = rows.filter(|r: RowModel| !withdrawn.contains(r.player_code));
            forall|j: int|
                7 <= j < a.len() ==> !(8 <= (#[trigger] a[j]).rank <= 20 && champions.contains(
                    a[j].player_code,
                ))
        }),
    ensures
        ({
            let a = rows.filter(|r: RowModel| !withdrawn.contains(r.player_code));
            let s = selection_of(rows, champions, withdrawn);
            &&& s.eighth_basis == SeatBasis::RaceRank
            &&& s.eighth_code == (if a.len() > 7 {
                Some(a[7].player_code)
            } else {
                None
            })
            &&& s.alternate_code == (if a.len() > 8 {
                Some(a[8].player_code)
            } else {
                None
            })
            &&& forall|i: int|
                0 <= i < a.len() ==> s.state((#[trigger] a[i]).player_code) == (if i < 7 {
                    Provisional::TopSeven
                } else if i == 7 {
                    Provisional::Eighth
                } else if i == 8 {
                    Provisional::FirstAlternate
                } else {
                    Provisional::NotSelected
                })
            &&& forall|i: int|
                0 <= i < a.len() && a.len() > 8 ==> s.margin((#[trigger] a[i]).player_code)
                    == Some(
                    if i < 8 {
                        (a[i].race_points - a[8].race_points) as i64
                    } else {
                        (a[i].race_points - a[7].race_points) as i64
                    },
                )
            &&& a.len() <= 8 ==> forall|c: Seq<char>| (#[trigger] s.margin(c)) is None
            &&& forall|c: Seq<char>|
                withdrawn.contains(c) ==> #[trigger] s.state(c) == Provisional::Withdrawn
                    && s.margin(c) is None
        }),
{
    let keep = |r: RowModel| !withdrawn.contains(r.player_code);
    let a = rows.filter(keep);
    assert(a == active(rows, withdrawn));
    filter_no_duplicates(rows, keep);
    no_champion_by_position(a, champions);
    without_a_champion_seats_follow_the_table(rows, champions, withdrawn);
    each_player_has_one_place(rows, champions, withdrawn);
    let s = selection_of(rows, champions, withdrawn);
    assert forall|i: int| 0 <= i < a.len() && a.len() > 8 implies s.margin(
        (#[trigger] a[i]).player_code,
    ) == Some(
        if i < 8 {
            (a[i].race_points - a[8].race_points) as i64
        } else {
            (a[i].race_points - a[7].race_points) as i64
        },
    ) by {
        margins_are_shown_only_by_race_rank(rows, champions, withdrawn, i);
    }
    assert forall|i: int| 0 <= i < a.len() implies s.state((#[trigger] a[i]).player_code) == (if i
        < 7 {
        Provisional::TopSeven
    } else if i == 7 {
        Provisional::Eighth
    } else if i == 8 {
        Provisional::FirstAlternate
    } else {
        Provisional::NotSelected
    }) by {
        let order = selection_order(rows, champions, withdrawn);
        assert(s.state(order[i].player_code) == seat(i));
    }
    assert forall|c: Seq<char>| withdrawn.contains(c) implies #[trigger] s.state(c)
        == Provisional::Withdrawn && s.margin(c) is None by {
        withdrawn_players_are_never_selected(rows, champions, withdrawn, c);
    }
}

/// In a table whose ranks count its rows and from which nobody has withdrawn,
/// the best-ranked of the champions ranked 8 to 20 holds seat 8, and holds it as
/// a champion.
pub proof fn the_best_ranked_champion_from_8_to_20_holds_seat_eight(
    rows: Seq<RowModel>,
    champions: Set<Seq<char>>,
    i: int,
)
    requires
        forall|x: int, y: int|
            0 <= x < y < rows.len() ==> (#[trigger] rows[x]).player_code != (
            #[trigger] rows[y]).player_code,
        forall|x: int| 0 <= x < rows.len() ==> (#[trigger] rows[x]).rank == x + 1,
        0 <= i < rows.len(),
        8 <= rows[i].rank <= 20,
        champions.contains(rows[i].player_code),
        forall|x: int|
            0 <= x < i && 8 <= (#[trigger] rows[x]).rank ==> !champions.contains(
                rows[x].player_code,
            ),
    ensures
        selection_of(rows, champions, Set::empty()).eighth_basis == SeatBasis::GrandSlamChampion,
        selection_of(rows, champions, Set::empty()).eighth_code == Some(rows[i].player_code),
        selection_of(rows, champions, Set::empty()).state(rows[i].player_code)
            == Provisional::Eighth,
        forall|c: Seq<char>|
            (#[trigger] selection_of(rows, champions, Set::empty()).margin(c)) is None,
{
    let withdrawn = Set::<Seq<char>>::empty();
    let keep = |r: RowModel| !withdrawn.contains(r.player_code);
    all_pass(rows, keep);
    assert(rows[i].rank == i + 1);
    let m = next_champion(rows, champions, i + 1);
    assert forall|j: int| 7 <= j < m && j != i implies !(8 <= (#[trigger] rows[j]).rank <= 20
        && champions.contains(rows[j].player_code)) by {
        assert(rows[j].rank == j + 1);
    }
    seats_with_a_champion(rows, champions, withdrawn, i, m);
    assert(rows.filter(|r: RowModel| !withdrawn.contains(r.player_code))[i] == rows[i]);
}

/// In such a table, where no champion is ranked 8 to 20 the player ranked 8
/// holds seat 8 by race rank and the player ranked 9 is the first alternate.
pub proof fn without_a_champion_from_8_to_20_rank_decides(
    rows: Seq<RowModel>,
    champions: Set<Seq<char>>,
)
    requires
        forall|x: int, y: int|
            0 <= x < y < rows.len() ==> (#[trigger] rows[x]).player_code != (
            #[trigger] rows[y]).player_code,
        forall|x: int| 0 <= x < rows.len() ==> (#[trigger] rows[x]).rank == x + 1,
        rows.len() >= 9,
        forall|x: int|
            0 <= x < rows.len() && 8 <= (#[trigger] rows[x]).rank <= 20 ==> !champions.contains(
                rows[x].player_code,
            ),
    ensures
        selection_of(rows, champions, Set::empty()).eighth_basis == SeatBasis::RaceRank,
        selection_of(rows, champions, Set::empty()).eighth_code == Some(rows[7].player_code),
        selection_of(rows, champions, Set::empty()).alternate_code == Some(rows[8].player_code),
{
    let withdrawn = Set::<Seq<char>>::empty();
    let keep = |r: RowModel| !withdrawn.contains(r.player_code);
    all_pass(rows, keep);
    seats_without_a_champion(rows, champions, withdrawn);
}

proof fn all_pass(rows: Seq<RowModel>, keep: spec_fn(RowModel) -> bool)
    requires
        forall|i: int| 0 <= i < rows.len() ==> keep(#[trigger] rows[i]),
    ensures
        rows.filter(keep) == rows,
    decreases rows.len(),
{
    reveal(Seq::filter);
    if rows.len() > 0 {
        let less = rows.drop_last();
        assert forall|i: int| 0 <= i < less.len() implies keep(#[trigger] less[i]) by {
            assert(less[i] == rows[i]);
        }
        all_pass(less, keep);
        assert(keep(rows[rows.len() - 1]));
        assert(rows.filter(keep) =~= rows);
    } else {
        assert(rows.filter(keep) =~= rows);
    }
}

/// The first champion ranked 8 to 20 from `from` on, or the end of the table.
proof fn next_champion(rows: Seq<RowModel>, champions: Set<Seq<char>>, from: int) -> (m: int)
    requires
        0 <= from <= rows.len(),
    ensures
        from <= m <= rows.len(),
        forall|j: int|
            from <= j < m ==> !(8 <= (#[trigger] rows[j]).rank <= 20 && champions.contains(
                rows[j].player_code,
            )),
        m < rows.len() ==> 8 <= rows[m].rank <= 20 && champions.contains(rows[m].player_code),
    decreases rows.len() - from,
{
    if from == rows.len() {
        from
    } else if 8 <= rows[from].rank <= 20 && champions.contains(rows[from].player_code) {
        from
    } else {
        next_champion(rows, champions, from + 1)
    }
}

} // verus!
