//! Parser for the English Wikipedia "<season> ATP Finals" article wikitext.
//!
//! Wikitext is parsed rather than rendered HTML because the markup is far more
//! stable across edits. Everything is located by structural markers — the
//! `!`-prefixed total cell, the `align="left"` player cell — rather than by
//! column index, so an editor adding a tournament column cannot silently shift
//! the numbers.
//!
//! Source content is available under CC BY-SA 4.0; see /methodology.

use vstd::hash_set::StringHashSet;
use vstd::prelude::*;
use vstd::slice::slice_subrange;

use crate::calendar::{
    from_calendar_date, midnight, midnight_of, month_display, month_name, now_utc, valid_date,
    CalendarDate, Timestamp,
};
use crate::model::{
    ledger_sum, ledger_total, qualifiers_model, results_model, rows_model, OfficialQualifier,
    Played, QualifierModel, RaceRow, ResultModel, RowModel, Slot, Snapshot, SnapshotModel,
    TournamentResult,
};
use crate::qualification::{has_code, no_duplicates};
use crate::text::{
    after_last, all_ascii, all_letters, any_alphabetic, any_letter, append_int, append_number,
    ascii_digit, ascii_lowercase, ascii_uppercase, before, begins, bounded, chars_of, contains,
    cut, decimal, decimal_int, digits_in, ends, ends_with, find, front_is_searched_first, glue,
    has, has_alphabetic, head, is_digit, is_space, join, joined, keep_digits, last_position_of,
    leading_digits, lines, lines_of, lowered, occurs_at, only_letters, parse_digits, parse_i32,
    parse_u8, position_from_is_first, position_of, raised, replace, replaced, rfind,
    search_passes_to_the_next_line, signed, slices, spells, split, split_on, split_once,
    split_whitespace, splitting_goes_piece_by_piece, starts_with, string_of, string_opt,
    strings, strip_prefix, stripped, tail, take_digits, trim, trim_char, trim_char_start,
    trim_start, trimmed, trimmed_start, unled, unsigned, untrailed, whitespace, words_of,
};

verus! {

/// Bumped whenever extraction below changes; recorded on every snapshot.
pub const PARSER_VERSION: &'static str = "wikipedia-wikitext-2";

/// Fewer rows than this is a truncated or restructured article, never a
/// publishable table. The qualification rule reaches rank 20, so a healthy
/// article carries at least this many.
pub const MIN_ROWS: usize = 10;

// ---------------------------------------------------------------------------
// Markup
// ---------------------------------------------------------------------------

/// `s` without its HTML comments: as long as the first opening stands before
/// the first closing, everything from the one to the other goes.
pub open spec fn without_comments(s: Seq<char>) -> Seq<char>
    decreases s.len(),
{
    match (position_of(s, "<!--"@), position_of(s, "-->"@)) {
        (Some(a), Some(b)) => if 0 <= a < b && b + 3 <= s.len() {
            without_comments(s.subrange(0, a) + s.subrange(b + 3, s.len() as int))
        } else {
            s
        },
        _ => s,
    }
}

/// How many tags are open after `s`: an opening bracket opens one, a closing
/// bracket closes one if any is open.
pub open spec fn tag_depth(s: Seq<char>) -> nat
    decreases s.len(),
{
    if s.len() == 0 {
        0
    } else {
        let d = tag_depth(s.drop_last());
        if s.last() == '<' {
            d + 1
        } else if s.last() == '>' && d > 0 {
            (d - 1) as nat
        } else {
            d
        }
    }
}

/// The characters of `s` that stand outside every tag.
pub open spec fn outside_tags(s: Seq<char>) -> Seq<char>
    decreases s.len(),
{
    if s.len() == 0 {
        s
    } else {
        let kept = outside_tags(s.drop_last());
        if s.last() == '<' || s.last() == '>' || tag_depth(s.drop_last()) > 0 {
            kept
        } else {
            kept.push(s.last())
        }
    }
}

/// `s` without comments, quote marks for bold and italics, and tags, with line
/// breaks as spaces and trimmed.
pub open spec fn plain(s: Seq<char>) -> Seq<char> {
    let t = without_comments(s);
    let t = replaced(t, "'''"@, ""@);
    let t = replaced(t, "''"@, ""@);
    let t = replaced(t, "<br/>"@, " "@);
    let t = replaced(t, "<br />"@, " "@);
    trimmed(outside_tags(t))
}

fn drop_comments(s: &[char]) -> (r: Vec<char>)
    ensures
        r@ == without_comments(s@),
{
    proof {
        reveal_strlit("-->");
    }
    let mut out: Vec<char> = vstd::slice::slice_to_vec(s);
    loop
        invariant
            "-->"@.len() == 3,
            without_comments(out@) == without_comments(s@),
        decreases out@.len(),
    {
        match (find(out.as_slice(), "<!--"), find(out.as_slice(), "-->")) {
            (Some(a), Some(b)) => {
                if a < b {
                    let end: usize = out.len();
                    let rest = glue(
                        slice_subrange(out.as_slice(), 0, a),
                        slice_subrange(out.as_slice(), b + 3, end),
                    );
                    out = rest;
                } else {
                    return out;
                }
            },
            _ => {
                return out;
            },
        }
    }
}

fn drop_tags(s: &[char]) -> (r: Vec<char>)
    ensures
        r@ == outside_tags(s@),
{
    let mut out: Vec<char> = Vec::new();
    let mut depth: usize = 0;
    let mut i: usize = 0;
    while i < s.len()
        invariant
            depth <= i <= s@.len(),
            depth == tag_depth(s@.take(i as int)),
            out@ == outside_tags(s@.take(i as int)),
        decreases s@.len() - i,
    {
        let c = s[i];
        assert(s@.take(i + 1).drop_last() =~= s@.take(i as int));
        assert(s@.take(i + 1).last() == c);
        if c == '<' {
            depth += 1;
        } else if c == '>' {
            if depth > 0 {
                depth -= 1;
            }
        } else if depth == 0 {
            out.push(c);
        }
        i += 1;
    }
    assert(s@.take(i as int) =~= s@);
    out
}

pub fn strip_markup(s: &[char]) -> (r: Vec<char>)
    ensures
        r@ == plain(s@),
{
    // HTML comments first: they can contain anything.
    let out = drop_comments(s);
    let out = replace(out.as_slice(), "'''", "");
    let out = replace(out.as_slice(), "''", "");
    let out = replace(out.as_slice(), "<br/>", " ");
    let out = replace(out.as_slice(), "<br />", " ");
    // Remaining tags such as <sup>†</sup>.
    let out = drop_tags(out.as_slice());
    vstd::slice::slice_to_vec(trim(out.as_slice()))
}

// ---------------------------------------------------------------------------
// Links, names and flags
// ---------------------------------------------------------------------------

/// What stands between the first `[[` and the `]]` that follows.
pub open spec fn link_inner(cell: Seq<char>) -> Option<Seq<char>> {
    match cut(cell, "[["@) {
        Some((_, rest)) => match cut(rest, "]]"@) {
            Some((inner, _)) => Some(inner),
            None => None,
        },
        None => None,
    }
}

/// The article that the first link leads to: what stands before its pipe.
pub open spec fn link_target(cell: Seq<char>) -> Option<Seq<char>> {
    match link_inner(cell) {
        Some(inner) => {
            let target = trimmed(before(inner, "|"@));
            if target.len() == 0 {
                None
            } else {
                Some(target)
            }
        },
        None => None,
    }
}

/// The text that the first link shows: what stands between its first pipe and
/// its second, or all of it.
pub open spec fn link_label(cell: Seq<char>) -> Option<Seq<char>> {
    match link_inner(cell) {
        Some(inner) => {
            let parts = split_on(inner, "|"@);
            let label = plain(
                if parts.len() > 1 {
                    parts[1]
                } else {
                    inner
                },
            );
            if label.len() == 0 {
                None
            } else {
                Some(label)
            }
        },
        None => None,
    }
}

fn first_wikilink<'a>(cell: &'a [char]) -> (r: Option<&'a [char]>)
    ensures
        match r {
            Some(inner) => link_inner(cell@) == Some(inner@),
            None => link_inner(cell@) is None,
        },
{
    match split_once(cell, "[[") {
        Some((_, rest)) => match split_once(rest, "]]") {
            Some((inner, _)) => Some(inner),
            None => None,
        },
        None => None,
    }
}

/// `[[Tommy Paul (tennis)|Tommy Paul]]` or `[[Jannik Sinner]]` -> article title.
pub fn first_wikilink_target(cell: &[char]) -> (r: Option<String>)
    ensures
        match r {
            Some(t) => link_target(cell@) == Some(t@),
            None => link_target(cell@) is None,
        },
{
    match first_wikilink(cell) {
        Some(inner) => {
            let target = trim(head(inner, "|"));
            if target.len() == 0 {
                None
            } else {
                Some(string_of(target))
            }
        },
        None => None,
    }
}

/// `[[Tommy Paul (tennis)|Tommy Paul]]` -> "Tommy Paul"; the *label*, not the
/// target. In the standings ledger the label is the round reached.
pub fn first_wikilink_label(cell: &[char]) -> (r: Option<String>)
    ensures
        match r {
            Some(t) => link_label(cell@) == Some(t@),
            None => link_label(cell@) is None,
        },
{
    match first_wikilink(cell) {
        Some(inner) => {
            let parts = split(inner, "|");
            assert(slices(parts@).len() == parts@.len());
            let shown: &[char] = if parts.len() > 1 {
                assert(slices(parts@)[1] == parts@[1]@);
                parts[1]
            } else {
                inner
            };
            let label = strip_markup(shown);
            if label.len() == 0 {
                None
            } else {
                Some(string_of(label.as_slice()))
            }
        },
        None => None,
    }
}

/// A title up to the space in front of its first parenthesis, when it ends
/// with one.
pub open spec fn shown_name(title: Seq<char>) -> Seq<char> {
    match cut(title, " ("@) {
        Some((name, _)) if ends(title, ")"@) => name,
        _ => title,
    }
}

/// Article titles disambiguate with a trailing parenthetical, which is not
/// part of the person's name.
pub fn display_name(title: &str) -> (r: String)
    ensures
        r@ == shown_name(title@),
{
    let chars = chars_of(title);
    let title = chars.as_slice();
    match split_once(title, " (") {
        Some((name, _)) if ends_with(title, ")") => string_of(name),
        _ => string_of(title),
    }
}

/// The three capitals of the first flag, or nothing.
pub open spec fn flag_in(cell: Seq<char>) -> Seq<char> {
    match cut(cell, "{{flagicon|"@) {
        Some((_, rest)) => match cut(rest, "}}"@) {
            Some((inner, _)) => {
                let code = trimmed(before(inner, "|"@));
                if code.len() == 3 && all_letters(code) {
                    raised(code)
                } else {
                    seq![]
                }
            },
            None => seq![],
        },
        None => seq![],
    }
}

/// `{{flagicon|ITA}}` -> "ITA"; `{{flagicon|}}` (neutral status) -> "".
pub fn flag_code(cell: &[char]) -> (r: String)
    ensures
        r@ == flag_in(cell@),
{
    match split_once(cell, "{{flagicon|") {
        Some((_, rest)) => match split_once(rest, "}}") {
            Some((inner, _)) => {
                let code = trim(head(inner, "|"));
                if code.len() == 3 && only_letters(code) {
                    let code = ascii_uppercase(code);
                    string_of(code.as_slice())
                } else {
                    String::new()
                }
            },
            None => String::new(),
        },
        None => String::new(),
    }
}

// ---------------------------------------------------------------------------
// Cells
// ---------------------------------------------------------------------------

/// The number that the digits of `s` write, if there are any and it fits.
pub open spec fn int_in(s: Seq<char>) -> Option<u32> {
    match bounded(digits_in(s), u32::MAX as nat) {
        Some(n) => Some(n as u32),
        None => None,
    }
}

pub fn parse_int(s: &[char]) -> (r: Option<u32>)
    ensures
        r == int_in(s@),
{
    let digits = keep_digits(s);
    match parse_digits(digits.as_slice(), u32::MAX as u64) {
        Some(n) => Some(n as u32),
        None => None,
    }
}

/// Only digits and commas, with at least one digit.
pub open spec fn is_grouped_number(v: Seq<char>) -> bool {
    &&& forall|i: int| 0 <= i < v.len() ==> is_digit(#[trigger] v[i]) || v[i] == ','
    &&& exists|i: int| 0 <= i < v.len() && is_digit(#[trigger] v[i])
}

/// The number in a `!`-prefixed line that holds nothing else.
pub open spec fn total_in_line(line: Seq<char>) -> Option<u32> {
    match stripped(trimmed(line), "!"@) {
        Some(rest) => {
            let v = trimmed(rest);
            if is_grouped_number(v) {
                int_in(v)
            } else {
                None
            }
        },
        None => None,
    }
}

/// The numbers of the lines that are `!`-prefixed numbers.
pub open spec fn totals_in(lines: Seq<Seq<char>>) -> Seq<u32>
    decreases lines.len(),
{
    if lines.len() == 0 {
        seq![]
    } else {
        match total_in_line(lines.last()) {
            Some(n) => totals_in(lines.drop_last()).push(n),
            None => totals_in(lines.drop_last()),
        }
    }
}

fn grouped_number(v: &[char]) -> (r: bool)
    ensures
        r == is_grouped_number(v@),
{
    let mut some_digit = false;
    let mut i: usize = 0;
    while i < v.len()
        invariant
            i <= v@.len(),
            forall|j: int| 0 <= j < i ==> is_digit(#[trigger] v@[j]) || v@[j] == ',',
            some_digit == exists|j: int| 0 <= j < i && is_digit(#[trigger] v@[j]),
        decreases v@.len() - i,
    {
        if ascii_digit(v[i]) {
            some_digit = true;
        } else if v[i] != ',' {
            return false;
        }
        i += 1;
    }
    some_digit
}

fn line_total(line: &[char]) -> (r: Option<u32>)
    ensures
        r == total_in_line(line@),
{
    match strip_prefix(trim(line), "!") {
        Some(rest) => {
            let v = trim(rest);
            if grouped_number(v) {
                parse_int(v)
            } else {
                None
            }
        },
        None => None,
    }
}

/// The standings table's total-points column is the first `!`-prefixed numeric
/// cell in a row (tournaments played and titles follow it).
pub fn header_cell_numbers(row: &[char]) -> (r: Vec<u32>)
    ensures
        r@ == totals_in(lines_of(row@)),
{
    let rows = lines(row);
    let ghost all = slices(rows@);
    let mut out: Vec<u32> = Vec::new();
    let mut i: usize = 0;
    while i < rows.len()
        invariant
            i <= rows@.len(),
            all == slices(rows@),
            out@ == totals_in(all.take(i as int)),
        decreases rows@.len() - i,
    {
        assert(all.take(i + 1).drop_last() =~= all.take(i as int));
        assert(all.take(i + 1).last() == rows@[i as int]@);
        if let Some(n) = line_total(rows[i]) {
            out.push(n);
        }
        i += 1;
    }
    assert(all.take(i as int) =~= all);
    out
}

/// Each piece of text trimmed.
pub open spec fn all_trimmed(parts: Seq<Seq<char>>) -> Seq<Seq<char>> {
    parts.map_values(|p: Seq<char>| trimmed(p))
}

/// The cells of a line: it begins with a pipe, is neither a row separator nor
/// the end of the table, and has its cells apart by double pipes.
pub open spec fn line_cells(line: Seq<char>) -> Seq<Seq<char>> {
    let t = trimmed(line);
    let content = match stripped(t, "| "@) {
        Some(rest) => Some(rest),
        None => stripped(t, "|"@),
    };
    match content {
        Some(rest) => if begins(rest, "-"@) || begins(rest, "}"@) {
            seq![]
        } else {
            all_trimmed(split_on(rest, "||"@))
        },
        None => seq![],
    }
}

/// The cells of the lines, one line after the other.
pub open spec fn cells_in(lines: Seq<Seq<char>>) -> Seq<Seq<char>>
    decreases lines.len(),
{
    if lines.len() == 0 {
        seq![]
    } else {
        cells_in(lines.drop_last()) + line_cells(lines.last())
    }
}

fn push_line_cells<'a>(cells: &mut Vec<&'a [char]>, line: &'a [char])
    ensures
        slices(final(cells)@) == slices(old(cells)@) + line_cells(line@),
{
    let ghost before = slices(cells@);
    let t = trim(line);
    let content = match strip_prefix(t, "| ") {
        Some(rest) => Some(rest),
        None => strip_prefix(t, "|"),
    };
    if let Some(rest) = content {
        if starts_with(rest, "-") || starts_with(rest, "}") {
            assert(before + line_cells(line@) =~= before);
            return ;
        }
        let parts = split(rest, "||");
        let ghost all = all_trimmed(slices(parts@));
        let mut i: usize = 0;
        assert(slices(cells@) =~= before + all.take(0));
        while i < parts.len()
            invariant
                i <= parts@.len(),
                all == all_trimmed(slices(parts@)),
                slices(cells@) == before + all.take(i as int),
            decreases parts@.len() - i,
        {
            let cell = trim(parts[i]);
            assert(all[i as int] == cell@);
            let ghost done = cells@;
            cells.push(cell);
            assert(slices(cells@) =~= slices(done).push(cell@));
            assert(before + all.take(i + 1) =~= (before + all.take(i as int)).push(all[i as int]));
            i += 1;
        }
        assert(all.take(i as int) =~= all);
    } else {
        assert(before + line_cells(line@) =~= before);
    }
}

/// Cells within a wikitext row: split on newline-`|` and inline `||`.
pub fn row_cells<'a>(row: &'a [char]) -> (r: Vec<&'a [char]>)
    ensures
        slices(r@) == cells_in(lines_of(row@)),
{
    let rows = lines(row);
    let ghost all = slices(rows@);
    let mut cells: Vec<&'a [char]> = Vec::new();
    let mut i: usize = 0;
    assert(slices(cells@) =~= cells_in(all.take(0)));
    while i < rows.len()
        invariant
            i <= rows@.len(),
            all == slices(rows@),
            slices(cells@) == cells_in(all.take(i as int)),
        decreases rows@.len() - i,
    {
        assert(all.take(i + 1).drop_last() =~= all.take(i as int));
        assert(all.take(i + 1).last() == rows@[i as int]@);
        push_line_cells(&mut cells, rows[i]);
        i += 1;
    }
    assert(all.take(i as int) =~= all);
    cells
}

/// Drop a leading `bgcolor=… |` / `align="left" |` style prefix from a cell.
pub fn cell_value<'a>(cell: &'a [char]) -> (r: &'a [char])
    ensures
        r@ == trimmed(after_last(cell@, "|"@)),
{
    trim(tail(cell, "|"))
}

/// The number that an attribute is set to, with or without quotes.
pub open spec fn attribute(s: Seq<char>, name: Seq<char>) -> Option<usize> {
    match cut(s, name) {
        Some((_, rest)) => match stripped(trimmed_start(rest), "="@) {
            Some(value) => {
                let v = unled(trimmed_start(value), '"');
                match bounded(v.subrange(0, leading_digits(v) as int), usize::MAX as nat) {
                    Some(n) => Some(n as usize),
                    None => None,
                }
            },
            None => None,
        },
        None => None,
    }
}

/// `colspan="4"` / `colspan=4` -> 4.
pub fn attr_number(s: &[char], name: &str) -> (r: Option<usize>)
    ensures
        r == attribute(s@, name@),
{
    match split_once(s, name) {
        Some((_, rest)) => match strip_prefix(trim_start(rest), "=") {
            Some(value) => {
                let v = trim_char_start(trim_start(value), '"');
                match parse_digits(take_digits(v), usize::MAX as u64) {
                    Some(n) => Some(n as usize),
                    None => None,
                }
            },
            None => None,
        },
        None => None,
    }
}

/// The block of columns that a header line declares, and how wide it is.
pub open spec fn group_in_line(line: Seq<char>) -> Option<(Slot, usize)> {
    match stripped(trimmed(line), "!"@) {
        Some(rest) => match attribute(rest, "colspan"@) {
            Some(span) => {
                let label = lowered(plain(rest));
                if has(label, "grand slam"@) {
                    Some((Slot::GrandSlam, span))
                } else if has(label, "masters 1000"@) {
                    Some((Slot::Mandatory1000, span))
                } else if has(label, "best other"@) {
                    Some((Slot::BestOther, span))
                } else {
                    None
                }
            },
            None => None,
        },
        None => None,
    }
}

/// The blocks of columns that the header's lines declare.
pub open spec fn groups_in(lines: Seq<Seq<char>>) -> Seq<(Slot, usize)>
    decreases lines.len(),
{
    if lines.len() == 0 {
        seq![]
    } else {
        match group_in_line(lines.last()) {
            Some(g) => groups_in(lines.drop_last()).push(g),
            None => groups_in(lines.drop_last()),
        }
    }
}

fn line_group(line: &[char]) -> (r: Option<(Slot, usize)>)
    ensures
        r == group_in_line(line@),
{
    match strip_prefix(trim(line), "!") {
        Some(rest) => match attr_number(rest, "colspan") {
            Some(span) => {
                let shown = strip_markup(rest);
                let label = ascii_lowercase(shown.as_slice());
                if contains(label.as_slice(), "grand slam") {
                    Some((Slot::GrandSlam, span))
                } else if contains(label.as_slice(), "masters 1000") {
                    Some((Slot::Mandatory1000, span))
                } else if contains(label.as_slice(), "best other") {
                    Some((Slot::BestOther, span))
                } else {
                    None
                }
            },
            // A rowspan column: Rank, Player, Total, Tourn, Titles.
            None => None,
        },
        None => None,
    }
}

/// The blocks of tournament columns, read from the first header row's
/// `colspan` groups: `! colspan="4" | [[…|Grand Slam]]` declares four Grand
/// Slam columns. Taking the widths from the header rather than hardcoding them
/// means a season with a different number of "best other" columns still parses.
pub fn header_groups(header: &[char]) -> (r: Vec<(Slot, usize)>)
    ensures
        r@ == groups_in(lines_of(header@)),
{
    let rows = lines(header);
    let ghost all = slices(rows@);
    let mut out: Vec<(Slot, usize)> = Vec::new();
    let mut i: usize = 0;
    while i < rows.len()
        invariant
            i <= rows@.len(),
            all == slices(rows@),
            out@ == groups_in(all.take(i as int)),
        decreases rows@.len() - i,
    {
        assert(all.take(i + 1).drop_last() =~= all.take(i as int));
        assert(all.take(i + 1).last() == rows@[i as int]@);
        if let Some(g) = line_group(rows[i]) {
            out.push(g);
        }
        i += 1;
    }
    assert(all.take(i as int) =~= all);
    out
}

// ---------------------------------------------------------------------------
// The ledger
// ---------------------------------------------------------------------------

/// The earlier of two positions.
pub open spec fn earlier(a: Option<int>, b: int) -> int {
    match a {
        Some(i) => if i < b {
            i
        } else {
            b
        },
        None => b,
    }
}

/// Where the body of a ledger cell begins at the latest: at its first comment,
/// link or italics.
pub open spec fn body_start(cell: Seq<char>) -> int {
    earlier(
        position_of(cell, "<!--"@),
        earlier(
            position_of(cell, "[["@),
            earlier(position_of(cell, "''"@), cell.len() as int),
        ),
    )
}

/// A ledger cell after the last pipe in front of its body.
pub open spec fn cell_body(cell: Seq<char>) -> Seq<char> {
    match last_position_of(cell.subrange(0, body_start(cell)), "|"@) {
        Some(i) => trimmed(cell.subrange(i + 1, cell.len() as int)),
        None => trimmed(cell),
    }
}

fn earlier_of(a: Option<usize>, b: usize) -> (r: usize)
    ensures
        r == earlier(
            match a {
                Some(i) => Some(i as int),
                None => None,
            },
            b as int,
        ),
        r <= b,
{
    match a {
        Some(i) => if i < b {
            i
        } else {
            b
        },
        None => b,
    }
}

/// Drop a leading `bgcolor=… |` style prefix from a ledger cell. Unlike
/// `cell_value` this cannot go by the last pipe alone: a ledger cell's body is
/// a wikilink, which carries its own pipe.
pub fn ledger_body<'a>(cell: &'a [char]) -> (r: &'a [char])
    ensures
        r@ == cell_body(cell@),
{
    let at = earlier_of(find(cell, "''"), cell.len());
    let at = earlier_of(find(cell, "[["), at);
    let at = earlier_of(find(cell, "<!--"), at);
    proof {
        reveal_strlit("|");
    }
    match rfind(slice_subrange(cell, 0, at), "|") {
        Some(i) => trim(slice_subrange(cell, i + 1, cell.len())),
        None => trim(cell),
    }
}

/// A comment without the dashes and the white space around it.
pub open spec fn comment_text(comment: Seq<char>) -> Seq<char> {
    trimmed(untrailed(unled(trimmed(comment), '-'), '-'))
}

/// What stands in a ledger cell's opening comment, if it opens with one.
pub open spec fn opening_comment(body: Seq<char>) -> Option<Seq<char>> {
    match stripped(body, "<!--"@) {
        Some(rest) => match cut(rest, "-->"@) {
            Some((comment, _)) => Some(comment_text(comment)),
            None => None,
        },
        None => None,
    }
}

/// The event that a ledger cell's opening comment names, if it names one, and
/// what follows the comment.
pub open spec fn slot_label_split(body: Seq<char>) -> (Seq<char>, Seq<char>) {
    match stripped(body, "<!--"@) {
        Some(rest) => match cut(rest, "-->"@) {
            Some((comment, follows)) => {
                let inner = comment_text(comment);
                (
                    if any_alphabetic(inner) {
                        inner
                    } else {
                        seq![]
                    },
                    trimmed(follows),
                )
            },
            None => (seq![], body),
        },
        None => (seq![], body),
    }
}

/// `<!--Miami--> …` — the source labels each mandatory column with the event
/// that column stands for. That is the *slot*, which for a substituted result
/// is not the event the player actually played. "Best other" columns are
/// labelled `<!---1--->` and stand for no particular event.
pub fn split_slot_label<'a>(body: &'a [char]) -> (r: (String, &'a [char]))
    ensures
        (r.0@, r.1@) == slot_label_split(body@),
        opening_comment(body@) matches Some(inner) ==> all_ascii(inner) ==> r.0@ == (if any_letter(
            inner,
        ) {
            inner
        } else {
            seq![]
        }),
{
    match strip_prefix(body, "<!--") {
        Some(rest) => match split_once(rest, "-->") {
            Some((comment, follows)) => {
                let inner = trim(trim_char(trim(comment), '-'));
                let label = if has_alphabetic(inner) {
                    string_of(inner)
                } else {
                    String::new()
                };
                (label, trim(follows))
            },
            None => (String::new(), body),
        },
        None => (String::new(), body),
    }
}

/// The number after a cell's last line break.
pub open spec fn points_in(body: Seq<char>) -> Option<u32> {
    match last_position_of(body, "<br"@) {
        Some(i) => match cut(body.subrange(i, body.len() as int), ">"@) {
            Some((_, rest)) => int_in(rest),
            None => None,
        },
        None => None,
    }
}

/// Points are the number the source puts after the cell's `<br/>`. Read from
/// that marker rather than by scanning for digits, which would otherwise pick
/// up the season in the wikilink target.
pub fn cell_points(body: &[char]) -> (r: Option<u32>)
    ensures
        r == points_in(body@),
{
    match rfind(body, "<br") {
        Some(i) => match split_once(slice_subrange(body, i, body.len()), ">") {
            Some((_, rest)) => parse_int(rest),
            None => None,
        },
        None => None,
    }
}

/// Four digits, a space, and something more.
pub open spec fn begins_with_season(s: Seq<char>) -> bool {
    &&& s.len() > 5
    &&& is_digit(s[0])
    &&& is_digit(s[1])
    &&& is_digit(s[2])
    &&& is_digit(s[3])
    &&& s[4] == ' '
}

/// A title up to its first dash between spaces, without the season in front.
pub open spec fn shown_event(title: Seq<char>) -> Seq<char> {
    let head = trimmed(before(before(title, " – "@), " - "@));
    if begins_with_season(head) {
        head.subrange(5, head.len() as int)
    } else {
        head
    }
}

/// `2026 Australian Open – Men's singles` -> "Australian Open". The season is
/// already stated on the page and the draw suffix is noise in a ledger.
pub fn event_name(title: &str) -> (r: String)
    ensures
        r@ == shown_event(title@),
{
    let title = chars_of(title);
    let front = trim(head(head(title.as_slice(), " – "), " - "));
    if front.len() > 5 && ascii_digit(front[0]) && ascii_digit(front[1]) && ascii_digit(front[2])
        && ascii_digit(front[3]) && front[4] == ' ' {
        string_of(slice_subrange(front, 5, front.len()))
    } else {
        string_of(front)
    }
}

/// What a ledger cell says.
pub open spec fn cell_result(cell: Seq<char>, slot: Slot) -> ResultModel {
    let (label, body) = slot_label_split(cell_body(cell));
    match link_target(body) {
        Some(title) => ResultModel {
            slot,
            slot_label: label,
            played: Played::Result,
            event_code: title,
            event_name: shown_event(title),
            round: match link_label(body) {
                Some(round) => round,
                None => seq![],
            },
            points: match points_in(body) {
                Some(n) => n,
                None => 0,
            },
            substituted: begins(body, "''"@),
        },
        None => ResultModel {
            slot,
            slot_label: label,
            played: if plain(body).len() == 0 {
                Played::Pending
            } else {
                Played::Absent
            },
            event_code: seq![],
            event_name: seq![],
            round: seq![],
            points: 0,
            substituted: false,
        },
    }
}

pub fn parse_result_cell(cell: &[char], slot: Slot) -> (r: TournamentResult)
    ensures
        r@ == cell_result(cell@, slot),
{
    let (slot_label, body) = split_slot_label(ledger_body(cell));
    match first_wikilink_target(body) {
        Some(title) => TournamentResult {
            slot,
            slot_label,
            played: Played::Result,
            event_name: event_name(title.as_str()),
            event_code: title,
            round: match first_wikilink_label(body) {
                Some(round) => round,
                None => String::new(),
            },
            points: match cell_points(body) {
                Some(n) => n,
                None => 0,
            },
            // The source italicises a next-best result standing in for a
            // mandatory Masters 1000.
            substituted: starts_with(body, "''"),
        },
        // No link: either an explicit `A` for an event the player skipped, or
        // an empty cell for one that has not been played yet.
        None => {
            let shown = strip_markup(body);
            TournamentResult {
                slot,
                slot_label,
                played: if shown.len() == 0 {
                    Played::Pending
                } else {
                    Played::Absent
                },
                event_code: String::new(),
                event_name: String::new(),
                round: String::new(),
                points: 0,
                substituted: false,
            }
        },
    }
}

/// The column after column of the blocks, as the slot each is in.
pub open spec fn columns(groups: Seq<(Slot, usize)>) -> Seq<Slot>
    decreases groups.len(),
{
    if groups.len() == 0 {
        seq![]
    } else {
        columns(groups.drop_last()) + Seq::new(groups.last().1 as nat, |i: int| groups.last().0)
    }
}

/// An unused "best other" column says only that the player has fewer counting
/// results than the table has columns.
pub open spec fn worth_an_entry(r: ResultModel) -> bool {
    !(r.slot == Slot::BestOther && r.played == Played::Pending)
}

/// What the first `n` cells from `from` on say, each in its column's slot.
pub open spec fn entries(cells: Seq<Seq<char>>, from: int, slots: Seq<Slot>, n: int) -> Seq<
    ResultModel,
>
    decreases n,
{
    if n <= 0 {
        seq![]
    } else {
        let r = cell_result(cells[from + n - 1], slots[n - 1]);
        if worth_an_entry(r) {
            entries(cells, from, slots, n - 1).push(r)
        } else {
            entries(cells, from, slots, n - 1)
        }
    }
}

/// How many of the columns a row has cells for.
pub open spec fn filled(cells: Seq<Seq<char>>, from: int, slots: Seq<Slot>) -> int {
    if cells.len() - from < 0 {
        0
    } else if cells.len() - from < slots.len() {
        cells.len() - from
    } else {
        slots.len() as int
    }
}

/// The ledger in the cells after the player's.
pub open spec fn ledger_in(cells: Seq<Seq<char>>, player_at: int, groups: Seq<(Slot, usize)>) -> Seq<
    ResultModel,
> {
    let slots = columns(groups);
    entries(cells, player_at + 1, slots, filled(cells, player_at + 1, slots))
}

/// The first blocks declare the first columns.
proof fn columns_front(groups: Seq<(Slot, usize)>, n: int)
    requires
        0 <= n <= groups.len(),
    ensures
        columns(groups.take(n)).len() <= columns(groups).len(),
        columns(groups).take(columns(groups.take(n)).len() as int) == columns(groups.take(n)),
    decreases groups.len(),
{
    if n == groups.len() {
        assert(groups.take(n) =~= groups);
        assert(columns(groups).take(columns(groups).len() as int) =~= columns(groups));
    } else {
        columns_front(groups.drop_last(), n);
        assert(groups.drop_last().take(n) =~= groups.take(n));
        let k = columns(groups.take(n)).len() as int;
        assert(columns(groups).take(k) =~= columns(groups.drop_last()).take(k));
    }
}

/// The per-tournament ledger for one data row: the cells after the player cell,
/// walked group by group so each one knows which block it belongs to.
pub fn parse_ledger(cells: &Vec<&[char]>, player_at: usize, groups: &Vec<(Slot, usize)>) -> (r: Vec<
    TournamentResult,
>)
    requires
        player_at < usize::MAX,
    ensures
        results_model(r@) == ledger_in(slices(cells@), player_at as int, groups@),
{
    let ghost all = slices(cells@);
    let ghost slots = columns(groups@);
    let ghost from = player_at + 1;
    let width: usize = cells.len();
    let mut out: Vec<TournamentResult> = Vec::new();
    let mut cursor: usize = player_at + 1;
    let mut g: usize = 0;
    assert(results_model(out@) =~= entries(all, from, slots, 0));
    if cursor > width {
        return out;
    }
    while g < groups.len()
        invariant
            g <= groups@.len(),
            all == slices(cells@),
            slots == columns(groups@),
            from == player_at + 1,
            width == cells@.len(),
            from <= cursor <= cells@.len(),
            cursor - from == columns(groups@.take(g as int)).len(),
            cursor - from <= slots.len(),
            results_model(out@) == entries(all, from, slots, cursor - from),
        decreases groups@.len() - g,
    {
        let slot = groups[g].0;
        let span = groups[g].1;
        let ghost start = cursor - from;
        proof {
            assert(groups@.take(g + 1).drop_last() =~= groups@.take(g as int));
            assert(groups@.take(g + 1).last() == groups@[g as int]);
            columns_front(groups@, g + 1);
            let front = columns(groups@.take(g + 1));
            assert(front.len() == start + span);
            assert forall|k: int| start <= k < start + span implies slots[k] == slot by {
                assert(slots[k] == slots.take(front.len() as int)[k]);
                assert(front[k] == slot);
            }
        }
        let mut j: usize = 0;
        while j < span
            invariant
                j <= span,
                all == slices(cells@),
                from == player_at + 1,
                width == cells@.len(),
                cursor - from == start + j,
                0 <= start,
                from <= cursor <= cells@.len(),
                slots == columns(groups@),
                start + span <= slots.len(),
                forall|k: int| start <= k < start + span ==> slots[k] == slot,
                results_model(out@) == entries(all, from, slots, cursor - from),
            decreases span - j,
        {
            if cursor >= width {
                // Row is short: reconciliation will reject it.
                return out;
            }
            let result = parse_result_cell(cells[cursor], slot);
            assert(all[cursor as int] == cells@[cursor as int]@);
            assert(slots[cursor - from] == slot);
            let ghost done = out@;
            cursor += 1;
            // An unused "best other" column means the player has fewer than
            // six counting results, which is not a fact worth a row. An unused
            // *mandatory* column is, so it is kept.
            if !(slot == Slot::BestOther && result.played == Played::Pending) {
                out.push(result);
                assert(results_model(out@) =~= results_model(done).push(result@));
            }
            j += 1;
        }
        g += 1;
    }
    assert(groups@.take(g as int) =~= groups@);
    out
}

// ---------------------------------------------------------------------------
// The standings
// ---------------------------------------------------------------------------

/// Why an article is not a publishable snapshot.
#[derive(Debug, Clone)]
pub enum SourceError {
    NoTable,
    NoPlayerCell { rank: u32 },
    NoArticleLink { rank: u32 },
    NoTotal { rank: u32 },
    NoAsOf,
    UnterminatedAsOf,
    NoYear,
    NoMonth,
    NoDay,
    BadMonth { month: u8 },
    BadDate { year: i32, month: String, day: u8 },
    Rejected { problems: Vec<Problem> },
}

/// A structural invariant that a candidate breaks.
#[derive(Debug, Clone)]
pub enum Problem {
    RowCount { rows: usize },
    RankGap { position: usize, expected: u32, got: u32 },
    DuplicatePlayer { code: String },
    PointsRise { rank: u32, points: u32, above: u32 },
    QualifierAbsent { code: String },
}

/// What a `Problem` says.
pub enum ProblemModel {
    RowCount { rows: nat },
    RankGap { position: nat, expected: u32, got: u32 },
    DuplicatePlayer { code: Seq<char> },
    PointsRise { rank: u32, points: u32, above: u32 },
    QualifierAbsent { code: Seq<char> },
}

/// What a `SourceError` says.
pub enum ErrorModel {
    NoTable,
    NoPlayerCell { rank: u32 },
    NoArticleLink { rank: u32 },
    NoTotal { rank: u32 },
    NoAsOf,
    UnterminatedAsOf,
    NoYear,
    NoMonth,
    NoDay,
    BadMonth { month: u8 },
    BadDate { year: i32, month: Seq<char>, day: u8 },
    Rejected { problems: Seq<ProblemModel> },
}

impl View for Problem {
    type V = ProblemModel;

    open spec fn view(&self) -> ProblemModel {
        match *self {
            Problem::RowCount { rows } => ProblemModel::RowCount { rows: rows as nat },
            Problem::RankGap { position, expected, got } => ProblemModel::RankGap {
                position: position as nat,
                expected,
                got,
            },
            Problem::DuplicatePlayer { code } => ProblemModel::DuplicatePlayer { code: code@ },
            Problem::PointsRise { rank, points, above } => ProblemModel::PointsRise {
                rank,
                points,
                above,
            },
            Problem::QualifierAbsent { code } => ProblemModel::QualifierAbsent { code: code@ },
        }
    }
}

/// What a list of problems says.
pub open spec fn problems_model(problems: Seq<Problem>) -> Seq<ProblemModel> {
    problems.map_values(|p: Problem| p@)
}

impl View for SourceError {
    type V = ErrorModel;

    open spec fn view(&self) -> ErrorModel {
        match *self {
            SourceError::NoTable => ErrorModel::NoTable,
            SourceError::NoPlayerCell { rank } => ErrorModel::NoPlayerCell { rank },
            SourceError::NoArticleLink { rank } => ErrorModel::NoArticleLink { rank },
            SourceError::NoTotal { rank } => ErrorModel::NoTotal { rank },
            SourceError::NoAsOf => ErrorModel::NoAsOf,
            SourceError::UnterminatedAsOf => ErrorModel::UnterminatedAsOf,
            SourceError::NoYear => ErrorModel::NoYear,
            SourceError::NoMonth => ErrorModel::NoMonth,
            SourceError::NoDay => ErrorModel::NoDay,
            SourceError::BadMonth { month } => ErrorModel::BadMonth { month },
            SourceError::BadDate { year, month, day } => ErrorModel::BadDate {
                year,
                month: month@,
                day,
            },
            SourceError::Rejected { problems } => ErrorModel::Rejected {
                problems: problems_model(problems@),
            },
        }
    }
}

/// From the first `open` up to the end of the table.
pub open spec fn table_in(s: Seq<char>, open: Seq<char>) -> Option<Seq<char>> {
    match position_of(s, open) {
        Some(i) => match cut(s.subrange(i, s.len() as int), "\n|}"@) {
            Some((table, _)) => Some(table),
            None => None,
        },
        None => None,
    }
}

pub fn table_at<'a>(wikitext: &'a [char], open: &str) -> (r: Option<&'a [char]>)
    ensures
        match r {
            Some(t) => table_in(wikitext@, open@) == Some(t@),
            None => table_in(wikitext@, open@) is None,
        },
{
    match find(wikitext, open) {
        Some(start) => {
            let end: usize = wikitext.len();
            match split_once(slice_subrange(wikitext, start, end), "\n|}") {
                Some((table, _)) => Some(table),
                None => None,
            }
        },
        None => None,
    }
}

/// A cell with a link in it, and with the left alignment of a player cell if
/// that is asked for.
pub open spec fn is_player_cell(cell: Seq<char>, aligned: bool) -> bool {
    has(cell, "[["@) && (aligned ==> has(cell, "align=\"left\""@))
}

/// The first player cell from `from` on.
pub open spec fn player_cell_from(cells: Seq<Seq<char>>, aligned: bool, from: int) -> Option<int>
    decreases cells.len() - from,
{
    if from >= cells.len() {
        None
    } else if is_player_cell(cells[from], aligned) {
        Some(from)
    } else {
        player_cell_from(cells, aligned, from + 1)
    }
}

/// The first left-aligned cell with a link, else the first cell with one.
pub open spec fn player_cell(cells: Seq<Seq<char>>) -> Option<int> {
    match player_cell_from(cells, true, 0) {
        Some(i) => Some(i),
        None => player_cell_from(cells, false, 0),
    }
}

fn find_player_cell(cells: &Vec<&[char]>, aligned: bool) -> (r: Option<usize>)
    ensures
        match r {
            Some(i) => player_cell_from(slices(cells@), aligned, 0) == Some(i as int) && i
                < cells@.len(),
            None => player_cell_from(slices(cells@), aligned, 0) is None,
        },
{
    let ghost all = slices(cells@);
    let mut i: usize = 0;
    while i < cells.len()
        invariant
            i <= cells@.len(),
            all == slices(cells@),
            player_cell_from(all, aligned, 0) == player_cell_from(all, aligned, i as int),
        decreases cells@.len() - i,
    {
        let cell = cells[i];
        assert(all[i as int] == cell@);
        if contains(cell, "[[") && (!aligned || contains(cell, "align=\"left\"")) {
            return Some(i);
        }
        i += 1;
    }
    None
}

/// What a chunk of the standings table is.
pub enum Chunk {
    /// No player's row.
    Skip,
    Row(RowModel),
    Fail(ErrorModel),
}

/// A ledger is trusted only when it accounts for the stated total exactly.
pub open spec fn reconciled(results: Seq<ResultModel>, total: u32) -> Seq<ResultModel> {
    if ledger_sum(results) == total {
        results
    } else {
        seq![]
    }
}

/// The `i`-th number of a list, if it has so many.
pub open spec fn nth(numbers: Seq<u32>, i: int) -> Option<u32> {
    if i < numbers.len() {
        Some(numbers[i])
    } else {
        None
    }
}

/// The row in a chunk whose cells and rank are known.
pub open spec fn row_in(
    chunk: Seq<char>,
    cells: Seq<Seq<char>>,
    rank: u32,
    groups: Seq<(Slot, usize)>,
) -> Chunk {
    match player_cell(cells) {
        None => Chunk::Fail(ErrorModel::NoPlayerCell { rank }),
        Some(at) => match link_target(cells[at]) {
            None => Chunk::Fail(ErrorModel::NoArticleLink { rank }),
            Some(title) => {
                let totals = totals_in(lines_of(chunk));
                if totals.len() == 0 {
                    Chunk::Fail(ErrorModel::NoTotal { rank })
                } else {
                    Chunk::Row(
                        RowModel {
                            rank,
                            movement: None,
                            player_code: title,
                            player_name: shown_name(title),
                            country: flag_in(cells[at]),
                            race_points: totals[0],
                            results: reconciled(ledger_in(cells, at, groups), totals[0]),
                            tournaments_played: nth(totals, 1),
                            titles: nth(totals, 2),
                        },
                    )
                }
            },
        },
    }
}

/// What a chunk of the standings table is: no row when it is the separator
/// above the alternates, has fewer than three cells, or shows no rank in its
/// first cell.
pub open spec fn chunk_in(chunk: Seq<char>, groups: Seq<(Slot, usize)>) -> Chunk {
    let cells = cells_in(lines_of(chunk));
    if has(chunk, "Alternates"@) && has(chunk, "colspan"@) {
        Chunk::Skip
    } else if cells.len() < 3 {
        Chunk::Skip
    } else {
        match int_in(plain(trimmed(after_last(cells[0], "|"@)))) {
            None => Chunk::Skip,
            Some(rank) => row_in(chunk, cells, rank, groups),
        }
    }
}

/// The rows in the chunks, or the first failure.
pub open spec fn rows_in(chunks: Seq<Seq<char>>, groups: Seq<(Slot, usize)>) -> Result<
    Seq<RowModel>,
    ErrorModel,
>
    decreases chunks.len(),
{
    if chunks.len() == 0 {
        Ok(seq![])
    } else {
        match rows_in(chunks.drop_last(), groups) {
            Err(e) => Err(e),
            Ok(rows) => match chunk_in(chunks.last(), groups) {
                Chunk::Skip => Ok(rows),
                Chunk::Row(row) => Ok(rows.push(row)),
                Chunk::Fail(e) => Err(e),
            },
        }
    }
}

/// All but the first `n` chunks.
pub open spec fn after_first(chunks: Seq<Seq<char>>, n: int) -> Seq<Seq<char>> {
    if chunks.len() <= n {
        seq![]
    } else {
        chunks.skip(n)
    }
}

/// The rows of an article's standings. The table's first chunk is its opening
/// and the first header row, which declares the blocks of columns; the second
/// is the second header row.
pub open spec fn standings_in(wikitext: Seq<char>) -> Result<Seq<RowModel>, ErrorModel> {
    match table_in(
        wikitext,
        "{|class=\"wikitable nowrap\" style=font-size:90%;text-align:center"@,
    ) {
        None => Err(ErrorModel::NoTable),
        Some(table) => {
            let chunks = split_on(table, "\n|-"@);
            rows_in(after_first(chunks, 2), groups_in(lines_of(chunks[0])))
        },
    }
}

/// A chunk that is no player's row has no part in the rows, wherever it stands.
pub proof fn skipped_chunks_shift_nothing(
    chunks: Seq<Seq<char>>,
    groups: Seq<(Slot, usize)>,
    i: int,
    chunk: Seq<char>,
)
    requires
        0 <= i <= chunks.len(),
        chunk_in(chunk, groups) == Chunk::Skip,
    ensures
        rows_in(chunks.insert(i, chunk), groups) == rows_in(chunks, groups),
    decreases chunks.len(),
{
    let more = chunks.insert(i, chunk);
    if i == chunks.len() {
        assert(more.drop_last() =~= chunks);
        assert(more.last() == chunk);
    } else {
        skipped_chunks_shift_nothing(chunks.drop_last(), groups, i, chunk);
        assert(more.drop_last() =~= chunks.drop_last().insert(i, chunk));
        assert(more.last() == chunks.last());
    }
}

/// The chunks of a table in which a chunk has been put before a row.
proof fn a_chunk_is_put_in(front: Seq<char>, chunk: Seq<char>, back: Seq<char>)
    requires
        !(has(chunk, "\n|-"@)),
    ensures
        split_on(front + "\n|-"@ + chunk + "\n|-"@ + back, "\n|-"@) == split_on(
            front + "\n|-"@ + back,
            "\n|-"@,
        ).insert(split_on(front, "\n|-"@).len() as int, chunk),
        split_on(front + "\n|-"@ + back, "\n|-"@).len() > split_on(front, "\n|-"@).len(),
        split_on(front + "\n|-"@ + back, "\n|-"@)[0] == split_on(front, "\n|-"@)[0],
{
    let sep = "\n|-"@;
    reveal_strlit("\n|-");
    let first = split_on(front, sep);
    let last = split_on(back, sep);
    splitting_goes_piece_by_piece(front, sep, back);
    splitting_goes_piece_by_piece(front, sep, chunk + sep + back);
    splitting_goes_piece_by_piece(chunk, sep, back);
    assert(front + sep + chunk + sep + back =~= front + sep + (chunk + sep + back));
    assert(split_on(chunk, sep) == seq![chunk]);
    assert(last.len() > 0);
    assert(first.len() > 0);
    assert((first + last).insert(first.len() as int, chunk) =~= first + (seq![chunk] + last));
}

/// Behind the mark of a row, a chunk that does not end the table still does not.
proof fn a_chunk_ends_no_table(chunk: Seq<char>)
    requires
        !(has(chunk, "\n|}"@)),
    ensures
        !(has("\n|-"@ + chunk, "\n|}"@)),
{
    let sep = "\n|-"@;
    let end = "\n|}"@;
    let put = sep + chunk;
    reveal_strlit("\n|-");
    reveal_strlit("\n|}");
    position_from_is_first(chunk, end, 0);
    position_from_is_first(put, end, 0);
    if let Some(p) = position_of(put, end) {
        let w = put.subrange(p, p + 3);
        assert(w[0] == end[0] && w[2] == end[2]);
        if p >= 3 {
            assert(w =~= chunk.subrange(p - 3, p));
            assert(occurs_at(chunk, end, p - 3));
        } else if p == 0 {
            assert(w[2] == sep[2]);
        } else {
            assert(w[0] == sep[p]);
        }
    }
}

/// Behind the mark of a row, the end of the table is found behind the mark.
proof fn a_row_ends_no_table(after: Seq<char>)
    requires
        begins(after, "\n|-"@),
    ensures
        after.len() >= 3,
        after[0] == '\n',
        after.subrange(0, 3) == "\n|-"@,
        position_of(after, "\n|}"@) matches Some(k) ==> 3 <= k && k + 3 <= after.len(),
{
    let sep = "\n|-"@;
    let end = "\n|}"@;
    reveal_strlit("\n|-");
    reveal_strlit("\n|}");
    let mark = after.subrange(0, 3);
    assert(mark == sep);
    assert(mark[0] == after[0] && mark[1] == after[1] && mark[2] == after[2]);
    position_from_is_first(after, end, 0);
    if let Some(k) = position_of(after, end) {
        let w = after.subrange(k, k + 3);
        assert(w[0] == end[0] && w[2] == end[2]);
        if k == 0 {
            assert(w[2] == after[2]);
        } else if k < 3 {
            assert(w[0] == after[k]);
        }
    }
}

/// The table that begins in `before`, when it goes on in `next`.
proof fn a_table_goes_on(before: Seq<char>, next: Seq<char>, open: Seq<char>)
    requires
        position_of(before, open) matches Some(i) && !(has(
            before.subrange(i, before.len() as int),
            "\n|}"@,
        )),
        next.len() > 0,
        next[0] == '\n',
    ensures
        ({
            let i = position_of(before, open)->0;
            table_in(before + next, open) == (match position_of(next, "\n|}"@) {
                Some(k) => Some(
                    before.subrange(i, before.len() as int) + next.subrange(0, k),
                ),
                None => None,
            })
        }),
{
    let end = "\n|}"@;
    reveal_strlit("\n|}");
    let i = position_of(before, open)->0;
    let s = before + next;
    let front = before.subrange(i, before.len() as int);
    position_from_is_first(before, open, 0);
    front_is_searched_first(before, next, open);
    assert(s.subrange(i, s.len() as int) =~= front + next);
    search_passes_to_the_next_line(front, next, end);
    position_from_is_first(next, end, 0);
    if let Some(k) = position_of(next, end) {
        assert((front + next).subrange(0, front.len() + k) =~= front + next.subrange(0, k));
    }
}

/// A table and the same table with a separator in it have the same rows.
proof fn a_separator_shifts_no_row_of_a_table(
    front: Seq<char>,
    separator: Seq<char>,
    back: Seq<char>,
)
    requires
        split_on(front, "\n|-"@).len() >= 2,
        has(separator, "Alternates"@),
        has(separator, "colspan"@),
        !(has(separator, "\n|-"@)),
    ensures
        ({
            let chunks = split_on(front + "\n|-"@ + back, "\n|-"@);
            let more = split_on(front + "\n|-"@ + separator + "\n|-"@ + back, "\n|-"@);
            let groups = groups_in(lines_of(chunks[0]));
            more[0] == chunks[0] && rows_in(after_first(more, 2), groups) == rows_in(
                after_first(chunks, 2),
                groups,
            )
        }),
{
    let chunks = split_on(front + "\n|-"@ + back, "\n|-"@);
    let more = split_on(front + "\n|-"@ + separator + "\n|-"@ + back, "\n|-"@);
    let groups = groups_in(lines_of(chunks[0]));
    let at = split_on(front, "\n|-"@).len() as int;
    a_chunk_is_put_in(front, separator, back);
    assert(more[0] == chunks[0]);
    assert(after_first(more, 2) =~= after_first(chunks, 2).insert(at - 2, separator));
    skipped_chunks_shift_nothing(after_first(chunks, 2), groups, at - 2, separator);
}

/// Between the rows of the standings table, a separator — a chunk that spans
/// columns and names the alternates — changes no row: not its rank, not its
/// points, not which player it is of. `before` holds the article up to a row
/// behind the two header rows, `after` the article from that row on.
pub proof fn a_separator_never_shifts_a_row(
    before: Seq<char>,
    after: Seq<char>,
    separator: Seq<char>,
)
    requires
        position_of(
            before,
            "{|class=\"wikitable nowrap\" style=font-size:90%;text-align:center"@,
        ) matches Some(i) && !(has(before.subrange(i, before.len() as int), "\n|}"@)) && split_on(
            before.subrange(i, before.len() as int),
            "\n|-"@,
        ).len() >= 2,
        begins(after, "\n|-"@),
        has(separator, "Alternates"@),
        has(separator, "colspan"@),
        !(has(separator, "\n|-"@)),
        !(has(separator, "\n|}"@)),
    ensures
        standings_in(before + "\n|-"@ + separator + after) == standings_in(before + after),
{
    let open = "{|class=\"wikitable nowrap\" style=font-size:90%;text-align:center"@;
    let sep = "\n|-"@;
    let end = "\n|}"@;
    reveal_strlit("\n|-");
    reveal_strlit("\n|}");
    let i = position_of(before, open)->0;
    let front = before.subrange(i, before.len() as int);
    let put = sep + separator;
    let next = put + after;
    assert(before + sep + separator + after =~= before + next);
    a_chunk_ends_no_table(separator);
    a_row_ends_no_table(after);
    search_passes_to_the_next_line(put, after, end);
    assert(next[0] == '\n');
    a_table_goes_on(before, after, open);
    a_table_goes_on(before, next, open);
    if let Some(k) = position_of(after, end) {
        let back = after.subrange(3, k);
        assert(after.subrange(0, k) =~= sep + back);
        assert(front + after.subrange(0, k) =~= front + sep + back);
        assert(next.subrange(0, put.len() + k) =~= put + after.subrange(0, k));
        assert(front + next.subrange(0, put.len() + k) =~= front + sep + separator + sep + back);
        a_separator_shifts_no_row_of_a_table(front, separator, back);
    }
}

fn number_at(numbers: &Vec<u32>, i: usize) -> (r: Option<u32>)
    ensures
        r == nth(numbers@, i as int),
{
    if i < numbers.len() {
        Some(numbers[i])
    } else {
        None
    }
}

fn read_row(chunk: &[char], cells: &Vec<&[char]>, rank: u32, groups: &Vec<(Slot, usize)>) -> (r:
    Result<RaceRow, SourceError>)
    ensures
        match r {
            Ok(row) => row_in(chunk@, slices(cells@), rank, groups@) == Chunk::Row(row@),
            Err(e) => row_in(chunk@, slices(cells@), rank, groups@) == Chunk::Fail(e@),
        },
{
    let aligned = find_player_cell(cells, true);
    let player_at = match aligned {
        Some(i) => i,
        None => match find_player_cell(cells, false) {
            Some(i) => i,
            None => {
                return Err(SourceError::NoPlayerCell { rank });
            },
        },
    };
    let player_cell = cells[player_at];
    assert(slices(cells@)[player_at as int] == player_cell@);
    let title = match first_wikilink_target(player_cell) {
        Some(t) => t,
        None => {
            return Err(SourceError::NoArticleLink { rank });
        },
    };
    // Total, then tournaments entered, then titles — the row's three
    // `!`-prefixed cells, in the order the header declares them.
    let totals = header_cell_numbers(chunk);
    if totals.len() == 0 {
        return Err(SourceError::NoTotal { rank });
    }
    let race_points = totals[0];

    // A ledger is trusted only when it accounts for the stated total exactly.
    // One that does not reconcile is dropped: the row keeps its total and
    // simply offers no breakdown, which is always better than offering a wrong
    // one.
    assert(player_at < cells.len());
    let read = parse_ledger(cells, player_at, groups);
    let results = match ledger_total(&read) {
        Some(sum) if sum == race_points => read,
        _ => Vec::new(),
    };
    assert(results_model(results@) =~= reconciled(
        ledger_in(slices(cells@), player_at as int, groups@),
        race_points,
    ));
    Ok(
        RaceRow {
            rank,
            movement: None,  // derived later from stored snapshots
            player_name: display_name(title.as_str()),
            player_code: title,
            country: flag_code(player_cell),
            race_points,
            results,
            tournaments_played: number_at(&totals, 1),
            titles: number_at(&totals, 2),
        },
    )
}

fn read_chunk(chunk: &[char], groups: &Vec<(Slot, usize)>) -> (r: Result<
    Option<RaceRow>,
    SourceError,
>)
    ensures
        match r {
            Ok(Some(row)) => chunk_in(chunk@, groups@) == Chunk::Row(row@),
            Ok(None) => chunk_in(chunk@, groups@) == Chunk::Skip,
            Err(e) => chunk_in(chunk@, groups@) == Chunk::Fail(e@),
        },
{
    if contains(chunk, "Alternates") && contains(chunk, "colspan") {
        return Ok(None);  // section separator, not a player
    }
    let cells = row_cells(chunk);
    assert(slices(cells@).len() == cells@.len());
    if cells.len() < 3 {
        return Ok(None);
    }
    assert(slices(cells@)[0] == cells@[0]@);
    let shown = strip_markup(cell_value(cells[0]));
    match parse_int(shown.as_slice()) {
        None => Ok(None),
        Some(rank) => match read_row(chunk, &cells, rank, groups) {
            Ok(row) => Ok(Some(row)),
            Err(e) => Err(e),
        },
    }
}

pub fn parse_standings(wikitext: &[char]) -> (r: Result<Vec<RaceRow>, SourceError>)
    ensures
        match r {
            Ok(rows) => standings_in(wikitext@) == Ok::<Seq<RowModel>, ErrorModel>(
                rows_model(rows@),
            ),
            Err(e) => standings_in(wikitext@) == Err::<Seq<RowModel>, ErrorModel>(e@),
        },
{
    let table = match table_at(
        wikitext,
        "{|class=\"wikitable nowrap\" style=font-size:90%;text-align:center",
    ) {
        Some(t) => t,
        None => {
            return Err(SourceError::NoTable);
        },
    };
    let chunks = split(table, "\n|-");
    assert(slices(chunks@)[0] == chunks@[0]@);
    let groups = header_groups(chunks[0]);
    // Skip the table opener and the second header row.
    read_rows(&chunks, 2, &groups)
}

#[verifier::spinoff_prover]
#[verifier::rlimit(40)]
fn read_rows(chunks: &Vec<&[char]>, from: usize, groups: &Vec<(Slot, usize)>) -> (r: Result<
    Vec<RaceRow>,
    SourceError,
>)
    ensures
        match r {
            Ok(rows) => rows_in(after_first(slices(chunks@), from as int), groups@) == Ok::<
                Seq<RowModel>,
                ErrorModel,
            >(rows_model(rows@)),
            Err(e) => rows_in(after_first(slices(chunks@), from as int), groups@) == Err::<
                Seq<RowModel>,
                ErrorModel,
            >(e@),
        },
{
    let ghost data = after_first(slices(chunks@), from as int);
    let mut rows: Vec<RaceRow> = Vec::new();
    assert(rows_model(rows@) =~= seq![]);
    let end: usize = chunks.len();
    if end <= from {
        return Ok(rows);
    }
    let mut i: usize = from;
    assert(data.take(0) =~= seq![]);
    while i < end
        invariant
            from <= i <= end,
            end == chunks@.len(),
            data == slices(chunks@).skip(from as int),
            rows_in(data.take(i - from), groups@) == Ok::<Seq<RowModel>, ErrorModel>(
                rows_model(rows@),
            ),
            data == after_first(slices(chunks@), from as int),
        decreases end - i,
    {
        let ghost taken = data.take(i - from + 1);
        assert(taken.drop_last() =~= data.take(i - from));
        assert(taken.last() == chunks@[i as int]@);
        match read_chunk(chunks[i], groups) {
            Ok(Some(row)) => {
                let ghost done = rows@;
                rows.push(row);
                assert(rows_model(rows@) =~= rows_model(done).push(row@));
            },
            Ok(None) => {},
            Err(e) => {
                proof {
                    first_failure_stands(data, groups@, i - from + 1);
                }
                return Err(e);
            },
        }
        i += 1;
    }
    assert(data.take(i - from) =~= data);
    Ok(rows)
}

/// A failure among the first chunks is the failure of all of them.
proof fn first_failure_stands(chunks: Seq<Seq<char>>, groups: Seq<(Slot, usize)>, n: int)
    requires
        0 <= n <= chunks.len(),
        rows_in(chunks.take(n), groups) is Err,
    ensures
        rows_in(chunks, groups) == rows_in(chunks.take(n), groups),
    decreases chunks.len(),
{
    if n == chunks.len() {
        assert(chunks.take(n) =~= chunks);
    } else {
        assert(chunks.drop_last().take(n) =~= chunks.take(n));
        first_failure_stands(chunks.drop_last(), groups, n);
    }
}

// ---------------------------------------------------------------------------
// The announced qualifiers
// ---------------------------------------------------------------------------

/// The number of the month that a name names, in whatever case.
pub open spec fn month_of(name: Seq<char>) -> Option<u8> {
    let n = lowered(name);
    if n == "january"@ {
        Some(1u8)
    } else if n == "february"@ {
        Some(2u8)
    } else if n == "march"@ {
        Some(3u8)
    } else if n == "april"@ {
        Some(4u8)
    } else if n == "may"@ {
        Some(5u8)
    } else if n == "june"@ {
        Some(6u8)
    } else if n == "july"@ {
        Some(7u8)
    } else if n == "august"@ {
        Some(8u8)
    } else if n == "september"@ {
        Some(9u8)
    } else if n == "october"@ {
        Some(10u8)
    } else if n == "november"@ {
        Some(11u8)
    } else if n == "december"@ {
        Some(12u8)
    } else {
        None
    }
}

pub fn month_from_name(name: &[char]) -> (r: Option<u8>)
    ensures
        r == month_of(name@),
{
    let lower = ascii_lowercase(name);
    let n = lower.as_slice();
    if spells(n, "january") {
        Some(1)
    } else if spells(n, "february") {
        Some(2)
    } else if spells(n, "march") {
        Some(3)
    } else if spells(n, "april") {
        Some(4)
    } else if spells(n, "may") {
        Some(5)
    } else if spells(n, "june") {
        Some(6)
    } else if spells(n, "july") {
        Some(7)
    } else if spells(n, "august") {
        Some(8)
    } else if spells(n, "september") {
        Some(9)
    } else if spells(n, "october") {
        Some(10)
    } else if spells(n, "november") {
        Some(11)
    } else if spells(n, "december") {
        Some(12)
    } else {
        None
    }
}

/// The date in two words, a day and the name of a month, in a given year.
pub open spec fn day_and_month(words: Seq<Seq<char>>, season: i32) -> Option<CalendarDate> {
    if words.len() < 2 {
        None
    } else {
        match (unsigned(words[0], u8::MAX as nat), month_of(words[1])) {
            (Some(day), Some(month)) => if valid_date(season as int, month as int, day as int) {
                Some(CalendarDate { year: season, month, day: day as u8 })
            } else {
                None
            },
            _ => None,
        }
    }
}

/// The date in the first `dts` template of a cell.
pub open spec fn dts_in(cell: Seq<char>, season: i32) -> Option<CalendarDate> {
    match cut(cell, "{{dts|"@) {
        Some((_, rest)) => match cut(rest, "}}"@) {
            Some((inner, _)) => day_and_month(words_of(inner), season),
            None => None,
        },
        None => None,
    }
}

/// `{{dts|10 July}}` in the qualifier table; the season supplies the year.
pub fn parse_dts(cell: &[char], season: i32) -> (r: Option<CalendarDate>)
    ensures
        r == dts_in(cell@, season),
{
    let (_, rest) = match split_once(cell, "{{dts|") {
        Some(parts) => parts,
        None => {
            return None;
        },
    };
    let (inner, _) = match split_once(rest, "}}") {
        Some(parts) => parts,
        None => {
            return None;
        },
    };
    let words = split_whitespace(inner);
    assert(slices(words@).len() == words@.len());
    if words.len() < 2 {
        return None;
    }
    assert(slices(words@)[0] == words@[0]@ && slices(words@)[1] == words@[1]@);
    match (parse_u8(words[0]), month_from_name(words[1])) {
        (Some(day), Some(month)) => from_calendar_date(season, month, day),
        _ => None,
    }
}

/// A character that ends a URL in a citation.
pub open spec fn ends_url(c: char) -> bool {
    c == '|' || c == '}' || is_space(c)
}

/// How long the URL is that `s` begins with.
pub open spec fn url_len(s: Seq<char>) -> nat
    decreases s.len(),
{
    if s.len() == 0 || ends_url(s[0]) {
        0
    } else {
        1 + url_len(s.subrange(1, s.len() as int))
    }
}

/// The web address that the first `url=` of a cell gives.
pub open spec fn url_in(cell: Seq<char>) -> Option<Seq<char>> {
    match cut(cell, "url="@) {
        Some((_, rest)) => {
            let url = rest.subrange(0, url_len(rest) as int);
            if begins(url, "http"@) {
                Some(url)
            } else {
                None
            }
        },
        None => None,
    }
}

pub fn first_ref_url(cell: &[char]) -> (r: Option<String>)
    ensures
        string_opt(r) == url_in(cell@),
{
    let (_, rest) = match split_once(cell, "url=") {
        Some(parts) => parts,
        None => {
            return None;
        },
    };
    let end: usize = rest.len();
    let mut i: usize = 0;
    assert(rest@.subrange(0, rest@.len() as int) =~= rest@);
    while i < end && rest[i] != '|' && rest[i] != '}' && !whitespace(rest[i])
        invariant
            end == rest@.len(),
            i <= end,
            url_len(rest@) == i + url_len(rest@.subrange(i as int, end as int)),
        decreases end - i,
    {
        assert(rest@.subrange(i as int, end as int).subrange(1, end - i) =~= rest@.subrange(
            i + 1,
            end as int,
        ));
        i += 1;
    }
    let url = slice_subrange(rest, 0, i);
    if starts_with(url, "http") {
        Some(string_of(url))
    } else {
        None
    }
}

/// The announcement in a chunk of the qualifier table. Chunks without the left
/// alignment of a player cell have their links in citations only.
pub open spec fn qualifier_in(chunk: Seq<char>, season: i32) -> Option<QualifierModel> {
    match (link_target(chunk), dts_in(chunk, season), url_in(chunk)) {
        (Some(title), Some(date), Some(url)) => if has(chunk, "align=left"@) {
            Some(QualifierModel { player_code: title, qualified_on: date, source_url: url })
        } else {
            None
        },
        _ => None,
    }
}

/// The announcements in the chunks, in their order.
pub open spec fn qualifiers_of(chunks: Seq<Seq<char>>, season: i32) -> Seq<QualifierModel>
    decreases chunks.len(),
{
    if chunks.len() == 0 {
        seq![]
    } else {
        match qualifier_in(chunks.last(), season) {
            Some(q) => qualifiers_of(chunks.drop_last(), season).push(q),
            None => qualifiers_of(chunks.drop_last(), season),
        }
    }
}

/// What follows the heading of the singles section, or all of it.
pub open spec fn singles_section(wikitext: Seq<char>) -> Seq<char> {
    match position_of(wikitext, "=== Singles ==="@) {
        Some(i) => wikitext.subrange(i, wikitext.len() as int),
        None => wikitext,
    }
}

/// The announcements in an article.
pub open spec fn qualifiers_in(wikitext: Seq<char>, season: i32) -> Seq<QualifierModel> {
    match table_in(singles_section(wikitext), "{|class=\"sortable wikitable nowrap\""@) {
        Some(table) => qualifiers_of(after_first(split_on(table, "\n|-"@), 1), season),
        None => seq![],
    }
}

fn read_qualifier(chunk: &[char], season: i32) -> (r: Option<OfficialQualifier>)
    ensures
        match r {
            Some(q) => qualifier_in(chunk@, season) == Some(q@),
            None => qualifier_in(chunk@, season) is None,
        },
{
    let title = match first_wikilink_target(chunk) {
        Some(t) => t,
        None => {
            return None;
        },
    };
    // Skip the article links inside citation templates.
    if !contains(chunk, "align=left") {
        return None;
    }
    let qualified_on = match parse_dts(chunk, season) {
        Some(d) => d,
        None => {
            return None;
        },
    };
    match first_ref_url(chunk) {
        Some(source_url) => Some(
            OfficialQualifier { player_code: title, qualified_on, source_url },
        ),
        None => None,
    }
}

/// The singles qualifier table is the first sortable wikitable after the
/// `=== Singles ===` heading; the doubles table follows and must be ignored.
pub fn parse_qualifiers(wikitext: &[char], season: i32) -> (r: Vec<OfficialQualifier>)
    ensures
        qualifiers_model(r@) == qualifiers_in(wikitext@, season),
{
    let mut out: Vec<OfficialQualifier> = Vec::new();
    let end: usize = wikitext.len();
    let singles = match find(wikitext, "=== Singles ===") {
        Some(i) => slice_subrange(wikitext, i, end),
        None => wikitext,
    };
    let table = match table_at(singles, "{|class=\"sortable wikitable nowrap\"") {
        Some(t) => t,
        None => {
            assert(qualifiers_model(out@) =~= seq![]);
            return out;
        },
    };
    let chunks = split(table, "\n|-");
    let ghost all = slices(chunks@);
    let ghost data = all.skip(1);
    assert(all.len() == chunks@.len() >= 1);
    assert(after_first(all, 1) =~= data);
    let mut i: usize = 1;
    assert(data.take(0) =~= seq![]);
    assert(qualifiers_model(out@) =~= seq![]);
    while i < chunks.len()
        invariant
            1 <= i <= chunks@.len(),
            data == slices(chunks@).skip(1),
            qualifiers_model(out@) == qualifiers_of(data.take(i - 1), season),
        decreases chunks@.len() - i,
    {
        let ghost taken = data.take(i as int);
        assert(taken.drop_last() =~= data.take(i - 1));
        assert(taken.last() == chunks@[i as int]@);
        match read_qualifier(chunks[i], season) {
            Some(q) => {
                let ghost done = out@;
                out.push(q);
                assert(qualifiers_model(out@) =~= qualifiers_model(done).push(q@));
            },
            None => {},
        }
        i += 1;
    }
    assert(data.take(i - 1) =~= data);
    out
}

// ---------------------------------------------------------------------------
// The date of the standings
// ---------------------------------------------------------------------------

/// The `i`-th part of a template, trimmed; nothing if it has fewer parts.
pub open spec fn part(parts: Seq<Seq<char>>, i: int) -> Seq<char> {
    if i < parts.len() {
        trimmed(parts[i])
    } else {
        seq![]
    }
}

/// The start of the day that the parts of an `as of` template give as year,
/// month and day.
pub open spec fn as_of_parts(parts: Seq<Seq<char>>) -> Result<Timestamp, ErrorModel> {
    match signed(part(parts, 0), i32::MAX as nat) {
        None => Err(ErrorModel::NoYear),
        Some(year) => match unsigned(part(parts, 1), u8::MAX as nat) {
            None => Err(ErrorModel::NoMonth),
            Some(month) => match unsigned(part(parts, 2), u8::MAX as nat) {
                None => Err(ErrorModel::NoDay),
                Some(day) => if !(1 <= month <= 12) {
                    Err(ErrorModel::BadMonth { month: month as u8 })
                } else if !valid_date(year, month as int, day as int) {
                    Err(
                        ErrorModel::BadDate {
                            year: year as i32,
                            month: month_name(month as int),
                            day: day as u8,
                        },
                    )
                } else {
                    Ok(
                        midnight_of(
                            CalendarDate { year: year as i32, month: month as u8, day: day as u8 },
                        ),
                    )
                },
            },
        },
    }
}

/// The moment that the first `as of` template of an article gives.
pub open spec fn as_of_in(wikitext: Seq<char>) -> Result<Timestamp, ErrorModel> {
    match cut(wikitext, "{{as of|"@) {
        None => Err(ErrorModel::NoAsOf),
        Some((_, rest)) => match cut(rest, "}}"@) {
            None => Err(ErrorModel::UnterminatedAsOf),
            Some((inner, _)) => as_of_parts(split_on(inner, "|"@)),
        },
    }
}

fn part_at<'a>(parts: &Vec<&'a [char]>, i: usize) -> (r: Option<&'a [char]>)
    ensures
        match r {
            Some(p) => i < parts@.len() && p@ == part(slices(parts@), i as int),
            None => i >= parts@.len(),
        },
{
    if i < parts.len() {
        assert(slices(parts@)[i as int] == parts@[i as int]@);
        Some(trim(parts[i]))
    } else {
        None
    }
}

fn u8_at(parts: &Vec<&[char]>, i: usize) -> (r: Option<u8>)
    ensures
        match r {
            Some(n) => unsigned(part(slices(parts@), i as int), u8::MAX as nat) == Some(n as nat),
            None => unsigned(part(slices(parts@), i as int), u8::MAX as nat) is None,
        },
{
    match part_at(parts, i) {
        Some(p) => parse_u8(p),
        None => None,
    }
}

/// `''Updated {{as of|2026|8|16|lc=yes}}.''` immediately above the table.
pub fn parse_as_of(wikitext: &[char]) -> (r: Result<Timestamp, SourceError>)
    ensures
        match r {
            Ok(t) => as_of_in(wikitext@) == Ok::<Timestamp, ErrorModel>(t),
            Err(e) => as_of_in(wikitext@) == Err::<Timestamp, ErrorModel>(e@),
        },
{
    let (_, rest) = match split_once(wikitext, "{{as of|") {
        Some(parts) => parts,
        None => {
            return Err(SourceError::NoAsOf);
        },
    };
    let (inner, _) = match split_once(rest, "}}") {
        Some(parts) => parts,
        None => {
            return Err(SourceError::UnterminatedAsOf);
        },
    };
    let parts = split(inner, "|");
    assert(slices(parts@).len() == parts@.len());
    let year = match part_at(&parts, 0) {
        Some(p) => match parse_i32(p) {
            Some(y) => y,
            None => {
                return Err(SourceError::NoYear);
            },
        },
        None => {
            return Err(SourceError::NoYear);
        },
    };
    let month = match u8_at(&parts, 1) {
        Some(m) => m,
        None => {
            return Err(SourceError::NoMonth);
        },
    };
    let day = match u8_at(&parts, 2) {
        Some(d) => d,
        None => {
            return Err(SourceError::NoDay);
        },
    };
    if month < 1 || month > 12 {
        return Err(SourceError::BadMonth { month });
    }
    match from_calendar_date(year, month, day) {
        Some(date) => Ok(midnight(date)),
        None => Err(SourceError::BadDate { year, month: month_display(month), day }),
    }
}

// ---------------------------------------------------------------------------
// Validation
// ---------------------------------------------------------------------------

/// The first row from `i` on whose rank is not its position.
pub open spec fn rank_gap_from(rows: Seq<RowModel>, i: int) -> Seq<ProblemModel>
    decreases rows.len() - i,
{
    if i >= rows.len() {
        seq![]
    } else if rows[i].rank != (i + 1) as u32 {
        seq![
            ProblemModel::RankGap {
                position: (i + 1) as nat,
                expected: (i + 1) as u32,
                got: rows[i].rank,
            },
        ]
    } else {
        rank_gap_from(rows, i + 1)
    }
}

/// Each row whose player an earlier row has.
pub open spec fn duplicates(rows: Seq<RowModel>) -> Seq<ProblemModel>
    decreases rows.len(),
{
    if rows.len() == 0 {
        seq![]
    } else if has_code(rows.drop_last(), rows.last().player_code) {
        duplicates(rows.drop_last()).push(
            ProblemModel::DuplicatePlayer { code: rows.last().player_code },
        )
    } else {
        duplicates(rows.drop_last())
    }
}

/// Each row with more points than the row above it.
pub open spec fn rises(rows: Seq<RowModel>) -> Seq<ProblemModel>
    decreases rows.len(),
{
    if rows.len() < 2 {
        seq![]
    } else {
        let above = rows[rows.len() - 2];
        if rows.last().race_points > above.race_points {
            rises(rows.drop_last()).push(
                ProblemModel::PointsRise {
                    rank: rows.last().rank,
                    points: rows.last().race_points,
                    above: above.race_points,
                },
            )
        } else {
            rises(rows.drop_last())
        }
    }
}

/// Each qualifier that no row stands for.
pub open spec fn absentees(rows: Seq<RowModel>, qualifiers: Seq<QualifierModel>) -> Seq<
    ProblemModel,
>
    decreases qualifiers.len(),
{
    if qualifiers.len() == 0 {
        seq![]
    } else if has_code(rows, qualifiers.last().player_code) {
        absentees(rows, qualifiers.drop_last())
    } else {
        absentees(rows, qualifiers.drop_last()).push(
            ProblemModel::QualifierAbsent { code: qualifiers.last().player_code },
        )
    }
}

/// A table too short to be the standings.
pub open spec fn shortfall(rows: Seq<RowModel>) -> Seq<ProblemModel> {
    if rows.len() < MIN_ROWS {
        seq![ProblemModel::RowCount { rows: rows.len() }]
    } else {
        seq![]
    }
}

/// Everything wrong with a candidate, in the order in which it is reported.
pub open spec fn problems_in(rows: Seq<RowModel>, qualifiers: Seq<QualifierModel>) -> Seq<
    ProblemModel,
> {
    shortfall(rows) + rank_gap_from(rows, 0) + duplicates(rows) + rises(rows) + absentees(
        rows,
        qualifiers,
    )
}

fn report_rank_gap(rows: &Vec<RaceRow>, problems: &mut Vec<Problem>)
    ensures
        problems_model(final(problems)@) == problems_model(old(problems)@) + rank_gap_from(
            rows_model(rows@),
            0,
        ),
{
    let ghost all = rows_model(rows@);
    let ghost start = problems@;
    let end: usize = rows.len();
    let mut i: usize = 0;
    while i < end
        invariant
            i <= end,
            end == rows@.len(),
            all == rows_model(rows@),
            problems@ == start,
            start == old(problems)@,
            rank_gap_from(all, 0) == rank_gap_from(all, i as int),
        decreases end - i,
    {
        let expected: u32 = #[verifier::truncate]
        ((i + 1) as u32);
        assert(all[i as int] == rows@[i as int]@);
        if rows[i].rank != expected {
            problems.push(Problem::RankGap { position: i + 1, expected, got: rows[i].rank });
            assert(problems_model(problems@) =~= problems_model(start) + rank_gap_from(all, 0));
            return;
        }
        i += 1;
    }
    assert(problems_model(problems@) =~= problems_model(start) + rank_gap_from(all, 0));
}

fn report_duplicates(rows: &Vec<RaceRow>, problems: &mut Vec<Problem>) -> (seen: StringHashSet)
    ensures
        problems_model(final(problems)@) == problems_model(old(problems)@) + duplicates(
            rows_model(rows@),
        ),
        forall|code: Seq<char>| seen@.contains(code) == has_code(rows_model(rows@), code),
{
    let ghost all = rows_model(rows@);
    let ghost start = problems_model(problems@);
    let mut seen = StringHashSet::new();
    let mut i: usize = 0;
    assert(problems_model(problems@) =~= start + duplicates(all.take(0)));
    while i < rows.len()
        invariant
            i <= rows@.len(),
            all == rows_model(rows@),
            problems_model(problems@) == start + duplicates(all.take(i as int)),
            forall|code: Seq<char>| seen@.contains(code) == has_code(all.take(i as int), code),
        decreases rows@.len() - i,
    {
        let ghost done = problems@;
        let ghost taken = all.take(i + 1);
        assert(taken.drop_last() =~= all.take(i as int));
        assert(taken.last() == rows@[i as int]@);
        let fresh = seen.insert(rows[i].player_code.clone());
        if !fresh {
            problems.push(Problem::DuplicatePlayer { code: rows[i].player_code.clone() });
            assert(problems_model(problems@) =~= problems_model(done).push(
                problems@.last()@,
            ));
        }
        assert(problems_model(problems@) =~= start + duplicates(taken));
        assert forall|code: Seq<char>| seen@.contains(code) == has_code(taken, code) by {
            let before = all.take(i as int);
            if has_code(before, code) {
                let k = choose|k: int|
                    0 <= k < before.len() && (#[trigger] before[k]).player_code == code;
                assert(taken[k].player_code == code);
            }
            assert(taken[i as int].player_code == rows@[i as int].player_code@);
            if has_code(taken, code) {
                let k = choose|k: int|
                    0 <= k < taken.len() && (#[trigger] taken[k]).player_code == code;
                if k < i {
                    assert(before[k].player_code == code);
                }
            }
        }
        i += 1;
    }
    assert(all.take(i as int) =~= all);
    seen
}

fn report_rises(rows: &Vec<RaceRow>, problems: &mut Vec<Problem>)
    ensures
        problems_model(final(problems)@) == problems_model(old(problems)@) + rises(
            rows_model(rows@),
        ),
{
    let ghost all = rows_model(rows@);
    let ghost start = problems_model(problems@);
    assert(problems_model(problems@) =~= start + rises(all.take(0)));
    if rows.len() == 0 {
        assert(all.take(0) =~= all);
        return;
    }
    let mut i: usize = 1;
    assert(problems_model(problems@) =~= start + rises(all.take(1)));
    while i < rows.len()
        invariant
            1 <= i <= rows@.len(),
            all == rows_model(rows@),
            problems_model(problems@) == start + rises(all.take(i as int)),
        decreases rows@.len() - i,
    {
        let ghost done = problems@;
        let ghost taken = all.take(i + 1);
        assert(taken.drop_last() =~= all.take(i as int));
        assert(taken.last() == rows@[i as int]@ && taken[i - 1] == rows@[i - 1]@);
        if rows[i].race_points > rows[i - 1].race_points {
            problems.push(
                Problem::PointsRise {
                    rank: rows[i].rank,
                    points: rows[i].race_points,
                    above: rows[i - 1].race_points,
                },
            );
            assert(problems_model(problems@) =~= problems_model(done).push(
                problems@.last()@,
            ));
        }
        assert(problems_model(problems@) =~= start + rises(taken));
        i += 1;
    }
    assert(all.take(i as int) =~= all);
}

fn report_absentees(
    rows: Ghost<Seq<RowModel>>,
    seen: &StringHashSet,
    qualifiers: &Vec<OfficialQualifier>,
    problems: &mut Vec<Problem>,
)
    requires
        forall|code: Seq<char>| seen@.contains(code) == has_code(rows@, code),
    ensures
        problems_model(final(problems)@) == problems_model(old(problems)@) + absentees(
            rows@,
            qualifiers_model(qualifiers@),
        ),
{
    let ghost all = qualifiers_model(qualifiers@);
    let ghost start = problems_model(problems@);
    let mut i: usize = 0;
    assert(problems_model(problems@) =~= start + absentees(rows@, all.take(0)));
    while i < qualifiers.len()
        invariant
            i <= qualifiers@.len(),
            all == qualifiers_model(qualifiers@),
            forall|code: Seq<char>| seen@.contains(code) == has_code(rows@, code),
            problems_model(problems@) == start + absentees(rows@, all.take(i as int)),
        decreases qualifiers@.len() - i,
    {
        let ghost done = problems@;
        let ghost taken = all.take(i + 1);
        assert(taken.drop_last() =~= all.take(i as int));
        assert(taken.last() == qualifiers@[i as int]@);
        let code = &qualifiers[i].player_code;
        if !seen.contains(code.as_str()) {
            problems.push(Problem::QualifierAbsent { code: code.clone() });
            assert(problems_model(problems@) =~= problems_model(done).push(
                problems@.last()@,
            ));
        }
        assert(problems_model(problems@) =~= start + absentees(rows@, taken));
        i += 1;
    }
    assert(all.take(i as int) =~= all);
}

/// The structural invariants that a candidate must keep.
pub fn validate(snapshot: &Snapshot) -> (r: Result<(), SourceError>)
    ensures
        match r {
            Ok(_) => problems_in(snapshot@.rows, snapshot@.qualifiers).len() == 0,
            Err(e) => problems_in(snapshot@.rows, snapshot@.qualifiers).len() > 0 && e@
                == (ErrorModel::Rejected {
                problems: problems_in(snapshot@.rows, snapshot@.qualifiers),
            }),
        },
{
    let rows = &snapshot.rows;
    let mut problems: Vec<Problem> = Vec::new();
    if rows.len() < MIN_ROWS {
        problems.push(Problem::RowCount { rows: rows.len() });
    }
    assert(problems_model(problems@) =~= shortfall(snapshot@.rows));
    report_rank_gap(rows, &mut problems);
    let seen = report_duplicates(rows, &mut problems);
    report_rises(rows, &mut problems);
    report_absentees(Ghost(snapshot@.rows), &seen, &snapshot.qualifiers, &mut problems);
    assert(problems_model(problems@).len() == problems@.len());
    if problems.len() == 0 {
        Ok(())
    } else {
        Err(SourceError::Rejected { problems })
    }
}

/// What the standings promise: enough rows, ranked by their positions, each
/// player once, points falling or level from row to row, and a row for every
/// announced qualifier.
pub open spec fn sound(rows: Seq<RowModel>, qualifiers: Seq<QualifierModel>) -> bool {
    &&& rows.len() >= MIN_ROWS
    &&& forall|i: int| 0 <= i < rows.len() ==> (#[trigger] rows[i]).rank == (i + 1) as u32
    &&& no_duplicates(rows)
    &&& forall|i: int, j: int|
        0 <= i <= j < rows.len() ==> (#[trigger] rows[i]).race_points >= (
        #[trigger] rows[j]).race_points
    &&& forall|i: int|
        0 <= i < qualifiers.len() ==> has_code(rows, (#[trigger] qualifiers[i]).player_code)
}

proof fn no_gap(rows: Seq<RowModel>, i: int)
    requires
        0 <= i,
    ensures
        rank_gap_from(rows, i).len() == 0 <==> forall|k: int|
            i <= k < rows.len() ==> (#[trigger] rows[k]).rank == (k + 1) as u32,
    decreases rows.len() - i,
{
    if i < rows.len() {
        no_gap(rows, i + 1);
        if rank_gap_from(rows, i).len() != 0 {
            if rows[i].rank == (i + 1) as u32 {
                assert(rank_gap_from(rows, i) == rank_gap_from(rows, i + 1));
            }
        }
    }
}

proof fn no_repeats(rows: Seq<RowModel>)
    ensures
        duplicates(rows).len() == 0 <==> no_duplicates(rows),
    decreases rows.len(),
{
    if rows.len() > 0 {
        let front = rows.drop_last();
        no_repeats(front);
        if no_duplicates(rows) {
            assert forall|i: int, j: int| 0 <= i < j < front.len() implies (
            #[trigger] front[i]).player_code != (#[trigger] front[j]).player_code by {
                assert(rows[i].player_code != rows[j].player_code);
            }
            if has_code(front, rows.last().player_code) {
                let k = choose|k: int|
                    0 <= k < front.len() && (#[trigger] front[k]).player_code
                        == rows.last().player_code;
                assert(rows[k].player_code == rows[rows.len() - 1].player_code);
            }
        }
        if duplicates(rows).len() == 0 {
            assert forall|i: int, j: int| 0 <= i < j < rows.len() implies (
            #[trigger] rows[i]).player_code != (#[trigger] rows[j]).player_code by {
                assert(front[i] == rows[i]);
                if j < front.len() {
                    assert(front[j] == rows[j]);
                }
            }
        }
    }
}

proof fn no_rises(rows: Seq<RowModel>)
    ensures
        rises(rows).len() == 0 <==> forall|i: int, j: int|
            0 <= i <= j < rows.len() ==> (#[trigger] rows[i]).race_points >= (
            #[trigger] rows[j]).race_points,
    decreases rows.len(),
{
    if rows.len() >= 2 {
        let front = rows.drop_last();
        let n = rows.len() as int;
        no_rises(front);
        if rises(rows).len() == 0 {
            assert forall|i: int, j: int| 0 <= i <= j < rows.len() implies (
            #[trigger] rows[i]).race_points >= (#[trigger] rows[j]).race_points by {
                if i < n - 1 {
                    assert(front[i] == rows[i] && front[n - 2] == rows[n - 2]);
                    assert(front[i].race_points >= front[n - 2].race_points);
                    if j < n - 1 {
                        assert(front[j] == rows[j]);
                    }
                }
            }
        }
        if forall|i: int, j: int|
            0 <= i <= j < rows.len() ==> (#[trigger] rows[i]).race_points >= (
            #[trigger] rows[j]).race_points {
            assert(rows[n - 2].race_points >= rows[n - 1].race_points);
            assert forall|i: int, j: int| 0 <= i <= j < front.len() implies (
            #[trigger] front[i]).race_points >= (#[trigger] front[j]).race_points by {
                assert(rows[i].race_points >= rows[j].race_points);
            }
        }
    }
}

proof fn no_absentees(rows: Seq<RowModel>, qualifiers: Seq<QualifierModel>)
    ensures
        absentees(rows, qualifiers).len() == 0 <==> forall|i: int|
            0 <= i < qualifiers.len() ==> has_code(rows, (#[trigger] qualifiers[i]).player_code),
    decreases qualifiers.len(),
{
    if qualifiers.len() > 0 {
        let front = qualifiers.drop_last();
        no_absentees(rows, front);
        if absentees(rows, qualifiers).len() == 0 {
            assert forall|i: int| 0 <= i < qualifiers.len() implies has_code(
                rows,
                (#[trigger] qualifiers[i]).player_code,
            ) by {
                if i < front.len() {
                    assert(front[i] == qualifiers[i]);
                }
            }
        } else if forall|i: int|
            0 <= i < qualifiers.len() ==> has_code(rows, (#[trigger] qualifiers[i]).player_code) {
            assert(has_code(rows, qualifiers[qualifiers.len() - 1].player_code));
            assert forall|i: int| 0 <= i < front.len() implies has_code(
                rows,
                (#[trigger] front[i]).player_code,
            ) by {
                assert(qualifiers[i] == front[i]);
            }
        }
    }
}

/// Validation finds nothing wrong with exactly the candidates that keep every
/// structural invariant.
pub proof fn valid_means_sound(rows: Seq<RowModel>, qualifiers: Seq<QualifierModel>)
    ensures
        problems_in(rows, qualifiers).len() == 0 <==> sound(rows, qualifiers),
{
    no_gap(rows, 0);
    no_repeats(rows);
    no_rises(rows);
    no_absentees(rows, qualifiers);
}

// ---------------------------------------------------------------------------
// The article
// ---------------------------------------------------------------------------

/// What an article gives: a snapshot, or the first reason against one.
pub open spec fn snapshot_in(
    wikitext: Seq<char>,
    label: Seq<char>,
    season: i32,
    now: Timestamp,
) -> Result<SnapshotModel, ErrorModel> {
    match as_of_in(wikitext) {
        Err(e) => Err(e),
        Ok(as_of) => match standings_in(wikitext) {
            Err(e) => Err(e),
            Ok(rows) => {
                let qualifiers = qualifiers_in(wikitext, season);
                let problems = problems_in(rows, qualifiers);
                if problems.len() > 0 {
                    Err(ErrorModel::Rejected { problems })
                } else {
                    Ok(
                        SnapshotModel {
                            source_as_of: as_of,
                            generated_at: now,
                            source: label,
                            parser_version: PARSER_VERSION@,
                            rows,
                            qualifiers,
                        },
                    )
                }
            },
        },
    }
}

/// Parse an article read at the moment `now` into a validated snapshot. A
/// candidate failing any check is rejected wholesale so it can never replace a
/// stored snapshot.
pub fn parse_at(wikitext: &str, source_label: &str, season: i32, now: Timestamp) -> (r: Result<
    Snapshot,
    SourceError,
>)
    ensures
        match r {
            Ok(s) => snapshot_in(wikitext@, source_label@, season, now) == Ok::<
                SnapshotModel,
                ErrorModel,
            >(s@),
            Err(e) => snapshot_in(wikitext@, source_label@, season, now) == Err::<
                SnapshotModel,
                ErrorModel,
            >(e@),
        },
{
    let text = chars_of(wikitext);
    let source_as_of = match parse_as_of(text.as_slice()) {
        Ok(t) => t,
        Err(e) => {
            return Err(e);
        },
    };
    let rows = match parse_standings(text.as_slice()) {
        Ok(rows) => rows,
        Err(e) => {
            return Err(e);
        },
    };
    let snapshot = Snapshot {
        source_as_of,
        generated_at: now,
        source: source_label.to_string(),
        parser_version: PARSER_VERSION.to_string(),
        rows,
        qualifiers: parse_qualifiers(text.as_slice(), season),
    };
    match validate(&snapshot) {
        Ok(_) => Ok(snapshot),
        Err(e) => Err(e),
    }
}

/// Parse an article into a validated snapshot, published now.
pub fn parse(wikitext: &str, source_label: &str, season: i32) -> (r: Result<Snapshot, SourceError>)
    ensures
        match r {
            Ok(s) => {
                &&& s.generated_at.valid()
                &&& s.generated_at.offset_seconds == 0
                &&& snapshot_in(wikitext@, source_label@, season, s.generated_at) == Ok::<
                    SnapshotModel,
                    ErrorModel,
                >(s@)
            },
            Err(e) => forall|now: Timestamp|
                #[trigger] snapshot_in(wikitext@, source_label@, season, now) == Err::<
                    SnapshotModel,
                    ErrorModel,
                >(e@),
        },
{
    parse_at(wikitext, source_label, season, now_utc())
}

/// The entries of a ledger for events that were not played carry no points.
pub open spec fn unplayed_carry_nothing(results: Seq<ResultModel>) -> bool {
    forall|i: int|
        0 <= i < results.len() ==> (#[trigger] results[i]).played == Played::Result
            || results[i].points == 0
}

/// What holds of a row read from an article: a ledger, if it has one, accounts
/// for the stated total exactly, and takes no points from events not played;
/// the name is the article title as displayed; and there is no movement yet.
pub open spec fn honest_row(row: RowModel) -> bool {
    &&& row.results.len() > 0 ==> ledger_sum(row.results) == row.race_points
    &&& unplayed_carry_nothing(row.results)
    &&& row.player_name == shown_name(row.player_code)
    &&& row.movement is None
}

/// What holds of an announcement read from an article of a season: a day that
/// exists in that season, and a web address for it.
pub open spec fn honest_qualifier(q: QualifierModel, season: i32) -> bool {
    &&& q.qualified_on.valid()
    &&& q.qualified_on.year == season
    &&& begins(q.source_url, "http"@)
}

proof fn entries_are_honest(cells: Seq<Seq<char>>, from: int, slots: Seq<Slot>, n: int)
    ensures
        unplayed_carry_nothing(entries(cells, from, slots, n)),
    decreases n,
{
    if n > 0 {
        entries_are_honest(cells, from, slots, n - 1);
        let front = entries(cells, from, slots, n - 1);
        let all = entries(cells, from, slots, n);
        assert forall|i: int| 0 <= i < all.len() implies (#[trigger] all[i]).played
            == Played::Result || all[i].points == 0 by {
            if i < front.len() {
                assert(all[i] == front[i]);
            }
        }
    }
}

proof fn a_row_is_honest(chunk: Seq<char>, groups: Seq<(Slot, usize)>)
    ensures
        chunk_in(chunk, groups) matches Chunk::Row(row) ==> honest_row(row),
{
    let cells = cells_in(lines_of(chunk));
    if let Some(at) = player_cell(cells) {
        let slots = columns(groups);
        entries_are_honest(cells, at + 1, slots, filled(cells, at + 1, slots));
    }
}

proof fn rows_are_honest(chunks: Seq<Seq<char>>, groups: Seq<(Slot, usize)>)
    ensures
        match rows_in(chunks, groups) {
            Ok(rows) => forall|i: int| 0 <= i < rows.len() ==> honest_row(#[trigger] rows[i]),
            Err(_) => true,
        },
    decreases chunks.len(),
{
    if chunks.len() > 0 {
        rows_are_honest(chunks.drop_last(), groups);
        a_row_is_honest(chunks.last(), groups);
    }
}

proof fn qualifiers_are_honest(chunks: Seq<Seq<char>>, season: i32)
    ensures
        forall|i: int|
            0 <= i < qualifiers_of(chunks, season).len() ==> honest_qualifier(
                #[trigger] qualifiers_of(chunks, season)[i],
                season,
            ),
    decreases chunks.len(),
{
    if chunks.len() > 0 {
        let front = qualifiers_of(chunks.drop_last(), season);
        let all = qualifiers_of(chunks, season);
        qualifiers_are_honest(chunks.drop_last(), season);
        assert forall|i: int| 0 <= i < all.len() implies honest_qualifier(
            #[trigger] all[i],
            season,
        ) by {
            if i < front.len() {
                assert(all[i] == front[i]);
            }
        }
    }
}

/// A snapshot that parses is sound; no row of it shows a breakdown that does
/// not add up to the row's total; every announced qualification carries a date
/// of the season and a web address; and the source's date is a day that exists.
pub proof fn a_parsed_snapshot_is_trustworthy(
    wikitext: Seq<char>,
    label: Seq<char>,
    season: i32,
    now: Timestamp,
)
    ensures
        snapshot_in(wikitext, label, season, now) matches Ok(s) ==> {
            &&& sound(s.rows, s.qualifiers)
            &&& s.source_as_of.valid()
            &&& forall|i: int| 0 <= i < s.rows.len() ==> honest_row(#[trigger] s.rows[i])
            &&& forall|i: int|
                0 <= i < s.qualifiers.len() ==> honest_qualifier(
                    #[trigger] s.qualifiers[i],
                    season,
                )
        },
{
    if let Ok(s) = snapshot_in(wikitext, label, season, now) {
        valid_means_sound(s.rows, s.qualifiers);
        let table = table_in(
            wikitext,
            "{|class=\"wikitable nowrap\" style=font-size:90%;text-align:center"@,
        )->0;
        let chunks = split_on(table, "\n|-"@);
        rows_are_honest(after_first(chunks, 2), groups_in(lines_of(chunks[0])));
        if let Some(table) = table_in(
            singles_section(wikitext),
            "{|class=\"sortable wikitable nowrap\""@,
        ) {
            qualifiers_are_honest(after_first(split_on(table, "\n|-"@), 1), season);
        }
    }
}

/// A candidate is accepted or rejected as a whole: an article gives a snapshot
/// exactly when its date and its table can be read and the table keeps every
/// structural invariant.
pub proof fn rejection_is_wholesale(
    wikitext: Seq<char>,
    label: Seq<char>,
    season: i32,
    now: Timestamp,
)
    ensures
        snapshot_in(wikitext, label, season, now) is Ok <==> {
            &&& as_of_in(wikitext) is Ok
            &&& standings_in(wikitext) matches Ok(rows) && sound(
                rows,
                qualifiers_in(wikitext, season),
            )
        },
{
    if let Ok(rows) = standings_in(wikitext) {
        valid_means_sound(rows, qualifiers_in(wikitext, season));
    }
}

/// Breakdowns never decide whether a table is accepted: tables that differ in
/// nothing but their ledgers are sound together or not at all.
pub proof fn a_breakdown_never_decides(
    a: Seq<RowModel>,
    b: Seq<RowModel>,
    qualifiers: Seq<QualifierModel>,
)
    requires
        a.len() == b.len(),
        forall|i: int|
            0 <= i < a.len() ==> (#[trigger] a[i]).rank == b[i].rank && a[i].player_code
                == b[i].player_code && a[i].race_points == b[i].race_points,
    ensures
        sound(a, qualifiers) == sound(b, qualifiers),
{
    soundness_carries_over(a, b, qualifiers);
    soundness_carries_over(b, a, qualifiers);
}

proof fn soundness_carries_over(
    a: Seq<RowModel>,
    b: Seq<RowModel>,
    qualifiers: Seq<QualifierModel>,
)
    requires
        a.len() == b.len(),
        forall|i: int|
            #![trigger a[i]]
            #![trigger b[i]]
            0 <= i < a.len() ==> a[i].rank == b[i].rank && a[i].player_code == b[i].player_code
                && a[i].race_points == b[i].race_points,
    ensures
        sound(a, qualifiers) ==> sound(b, qualifiers),
{
    if sound(a, qualifiers) {
        assert forall|i: int| 0 <= i < qualifiers.len() implies has_code(
            b,
            (#[trigger] qualifiers[i]).player_code,
        ) by {
            let code = qualifiers[i].player_code;
            assert(has_code(a, code));
            let k = choose|k: int| 0 <= k < a.len() && (#[trigger] a[k]).player_code == code;
            assert(b[k].player_code == code);
        }
        assert forall|i: int, j: int| 0 <= i < j < b.len() implies (
        #[trigger] b[i]).player_code != (#[trigger] b[j]).player_code by {
            assert(a[i].player_code != a[j].player_code);
        }
        assert forall|i: int, j: int| 0 <= i <= j < b.len() implies (
        #[trigger] b[i]).race_points >= (#[trigger] b[j]).race_points by {
            assert(a[i].race_points >= a[j].race_points);
        }
    }
}

/// A cell is identified by its own link, never by the column it sits in: the
/// column gives the result its slot and nothing else.
pub proof fn a_cell_names_its_own_event(cell: Seq<char>, a: Slot, b: Slot)
    ensures
        cell_result(cell, a) == (ResultModel { slot: a, ..cell_result(cell, b) }),
{
}

/// Whether an article is accepted, and with what rows, does not depend on the
/// label it is given or on when it is read.
pub proof fn only_the_article_decides(
    wikitext: Seq<char>,
    season: i32,
    label: Seq<char>,
    now: Timestamp,
    other_label: Seq<char>,
    other_now: Timestamp,
)
    ensures
        match (
            snapshot_in(wikitext, label, season, now),
            snapshot_in(wikitext, other_label, season, other_now),
        ) {
            (Ok(a), Ok(b)) => a.rows == b.rows && a.qualifiers == b.qualifiers && a.source_as_of
                == b.source_as_of,
            (Err(a), Err(b)) => a == b,
            _ => false,
        },
{
}

// ---------------------------------------------------------------------------
// Messages
// ---------------------------------------------------------------------------

/// How a problem is worded.
pub open spec fn problem_text(p: ProblemModel) -> Seq<char> {
    match p {
        ProblemModel::RowCount { rows } => "implausible row count "@ + decimal(rows),
        ProblemModel::RankGap { position, expected, got } => "rank not contiguous at position "@
            + decimal(position) + ": expected "@ + decimal(expected as nat) + ", got "@ + decimal(
            got as nat,
        ),
        ProblemModel::DuplicatePlayer { code } => "duplicate player "@ + code,
        ProblemModel::PointsRise { rank, points, above } => "points not non-increasing at rank "@
            + decimal(rank as nat) + ": "@ + decimal(points as nat) + " > "@ + decimal(
            above as nat,
        ),
        ProblemModel::QualifierAbsent { code } => "qualifier "@ + code
            + " is absent from the standings table"@,
    }
}

/// How the problems are worded, each on its own.
pub open spec fn problem_texts(problems: Seq<ProblemModel>) -> Seq<Seq<char>> {
    problems.map_values(|p: ProblemModel| problem_text(p))
}

/// How a failure at a rank is worded.
pub open spec fn at_rank(rank: u32, what: Seq<char>) -> Seq<char> {
    "rank "@ + decimal(rank as nat) + what
}

/// How an error is worded.
pub open spec fn error_text(e: ErrorModel) -> Seq<char> {
    match e {
        ErrorModel::NoTable => "standings table not found; article structure changed"@,
        ErrorModel::NoPlayerCell { rank } => at_rank(rank, ": no player cell"@),
        ErrorModel::NoArticleLink { rank } => at_rank(rank, ": no article link in player cell"@),
        ErrorModel::NoTotal { rank } => at_rank(rank, ": no total-points cell"@),
        ErrorModel::NoAsOf => "no '{as of}' date found; cannot state source freshness"@,
        ErrorModel::UnterminatedAsOf => "unterminated 'as of' template"@,
        ErrorModel::NoYear => "'as of' has no year"@,
        ErrorModel::NoMonth => "'as of' has no month"@,
        ErrorModel::NoDay => "'as of' has no day"@,
        ErrorModel::BadMonth { month } => "'as of' month "@ + decimal(month as nat) + " invalid"@,
        ErrorModel::BadDate { year, month, day } => "'as of' date "@ + decimal_int(year as int)
            + "-"@ + month + "-"@ + decimal(day as nat) + " invalid"@,
        ErrorModel::Rejected { problems } => "candidate snapshot rejected: "@ + joined(
            problem_texts(problems),
            "; "@,
        ),
    }
}

impl Problem {
    pub fn message(&self) -> (r: String)
        ensures
            r@ == problem_text(self@),
    {
        match self {
            Problem::RowCount { rows } => {
                let mut s = "implausible row count ".to_string();
                append_number(&mut s, *rows as u64);
                s
            },
            Problem::RankGap { position, expected, got } => {
                let mut s = "rank not contiguous at position ".to_string();
                append_number(&mut s, *position as u64);
                s.append(": expected ");
                append_number(&mut s, *expected as u64);
                s.append(", got ");
                append_number(&mut s, *got as u64);
                s
            },
            Problem::DuplicatePlayer { code } => {
                let mut s = "duplicate player ".to_string();
                s.append(code.as_str());
                s
            },
            Problem::PointsRise { rank, points, above } => {
                let mut s = "points not non-increasing at rank ".to_string();
                append_number(&mut s, *rank as u64);
                s.append(": ");
                append_number(&mut s, *points as u64);
                s.append(" > ");
                append_number(&mut s, *above as u64);
                s
            },
            Problem::QualifierAbsent { code } => {
                let mut s = "qualifier ".to_string();
                s.append(code.as_str());
                s.append(" is absent from the standings table");
                s
            },
        }
    }
}

fn messages(problems: &Vec<Problem>) -> (r: Vec<String>)
    ensures
        strings(r@) == problem_texts(problems_model(problems@)),
{
    let mut out: Vec<String> = Vec::new();
    let mut i: usize = 0;
    while i < problems.len()
        invariant
            i <= problems@.len(),
            out@.len() == i,
            forall|k: int| 0 <= k < i ==> (#[trigger] out@[k])@ == problem_text(problems@[k]@),
        decreases problems@.len() - i,
    {
        out.push(problems[i].message());
        i += 1;
    }
    assert(strings(out@) =~= problem_texts(problems_model(problems@)));
    out
}

fn message_at_rank(rank: u32, what: &str) -> (r: String)
    ensures
        r@ == at_rank(rank, what@),
{
    let mut s = "rank ".to_string();
    append_number(&mut s, rank as u64);
    s.append(what);
    s
}

impl SourceError {
    pub fn message(&self) -> (r: String)
        ensures
            r@ == error_text(self@),
    {
        match self {
            SourceError::NoTable => {
                "standings table not found; article structure changed".to_string()
            },
            SourceError::NoPlayerCell { rank } => message_at_rank(*rank, ": no player cell"),
            SourceError::NoArticleLink { rank } => message_at_rank(
                *rank,
                ": no article link in player cell",
            ),
            SourceError::NoTotal { rank } => message_at_rank(*rank, ": no total-points cell"),
            SourceError::NoAsOf => {
                "no '{as of}' date found; cannot state source freshness".to_string()
            },
            SourceError::UnterminatedAsOf => "unterminated 'as of' template".to_string(),
            SourceError::NoYear => "'as of' has no year".to_string(),
            SourceError::NoMonth => "'as of' has no month".to_string(),
            SourceError::NoDay => "'as of' has no day".to_string(),
            SourceError::BadMonth { month } => {
                let mut s = "'as of' month ".to_string();
                append_number(&mut s, *month as u64);
                s.append(" invalid");
                s
            },
            SourceError::BadDate { year, month, day } => {
                let mut s = "'as of' date ".to_string();
                append_int(&mut s, *year as i64);
                s.append("-");
                s.append(month.as_str());
                s.append("-");
                append_number(&mut s, *day as u64);
                s.append(" invalid");
                s
            },
            SourceError::Rejected { problems } => {
                let mut s = "candidate snapshot rejected: ".to_string();
                s.append(join(&messages(problems), "; ").as_str());
                s
            },
        }
    }
}

} // verus!
