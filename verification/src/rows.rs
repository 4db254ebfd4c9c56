//! How a row of the standings table reads: its cells, the header over them, and
//! what makes a table acceptable.

use vstd::prelude::*;

use crate::model::{ledger_sum, Played, QualifierModel, ResultModel, RowModel, Slot};
use crate::reading::{
    a_piped_link_is_read, bare_text_is_kept, blank, blank_is_trimmed_away, close_is_found,
    cut_behind, digit_is_bare, end_behind, end_splits, free_of, grouped_numbers_read_back, holds,
    in_any_case, lacks, lower_case_compares_without_case, no_bracket_no_link, padding_is_trimmed,
    unmarked, unmarked_text_reads_as_it_is,
};
use crate::source::{
    attribute, begins_with_season, body_start, cell_body, cell_result, chunk_in, columns,
    comment_text, entries, filled, group_in_line, is_player_cell, ledger_in, link_label,
    link_target, plain, player_cell, player_cell_from, points_in, problems_in, shown_event,
    slot_label_split, sound, totals_in, valid_means_sound, worth_an_entry, Chunk, ErrorModel,
};
use crate::text::{
    alphabetic_property, before, begins, cut, decimal, decimals_read_back,
    first_position_is_found, has, is_digit, is_space, last_position_is_last, last_position_of,
    lines_of, lowered, occurs_at, position_from_is_first, position_of, stripped, trimmed,
    trimmed_end, trimmed_start, unled, untrailed,
};
use crate::web::grouped;

verus! {

// ---------------------------------------------------------------------------
// The cells of a ledger
// ---------------------------------------------------------------------------

/// What may stand in front of a ledger cell's content: nothing, or a style and a
/// pipe.
pub open spec fn is_style(front: Seq<char>) -> bool {
    &&& free_of(front, '<')
    &&& free_of(front, '[')
    &&& free_of(front, '\'')
    &&& front.len() > 0 ==> front.len() >= 2 && front[front.len() - 2] == '|' && front.last()
        == ' '
}

/// Every character of `s` is a dash.
pub open spec fn dashes(s: Seq<char>) -> bool {
    forall|i: int| 0 <= i < s.len() ==> #[trigger] s[i] == '-'
}

/// A text that begins and ends with neither white space nor a dash.
pub open spec fn is_core(s: Seq<char>) -> bool {
    &&& s.len() > 0
    &&& !is_space(s[0]) && s[0] != '-'
    &&& !is_space(s.last()) && s.last() != '-'
}

proof fn dashes_are_taken_off(d: Seq<char>, core: Seq<char>, e: Seq<char>)
    requires
        dashes(d),
        dashes(e),
        is_core(core),
    ensures
        comment_text(d + core + e) == core,
{
    let s = d + core + e;
    assert(!is_space(s[0])) by {
        if d.len() > 0 {
            assert(s[0] == d[0]);
        } else {
            assert(s[0] == core[0]);
        }
    }
    assert(!is_space(s.last())) by {
        if e.len() > 0 {
            assert(s.last() == e[e.len() - 1]);
        } else {
            assert(s.last() == core.last());
        }
    }
    bare_text_is_kept(s);
    assert(s =~= d + (core + e));
    leading_dashes(d, core + e);
    trailing_dashes(core, e);
    bare_text_is_kept(core);
}

proof fn leading_dashes(d: Seq<char>, rest: Seq<char>)
    requires
        dashes(d),
        rest.len() > 0,
        rest[0] != '-',
    ensures
        unled(d + rest, '-') == rest,
    decreases d.len(),
{
    if d.len() == 0 {
        assert(d + rest =~= rest);
    } else {
        let less = d.subrange(1, d.len() as int);
        assert forall|i: int| 0 <= i < less.len() implies #[trigger] less[i] == '-' by {
            assert(less[i] == d[i + 1]);
        }
        leading_dashes(less, rest);
        assert((d + rest)[0] == d[0]);
        assert((d + rest).subrange(1, (d + rest).len() as int) =~= less + rest);
    }
}

proof fn trailing_dashes(core: Seq<char>, e: Seq<char>)
    requires
        dashes(e),
        core.len() > 0,
        core.last() != '-',
    ensures
        untrailed(core + e, '-') == core,
    decreases e.len(),
{
    if e.len() == 0 {
        assert(core + e =~= core);
    } else {
        let less = e.subrange(0, e.len() - 1);
        assert forall|i: int| 0 <= i < less.len() implies #[trigger] less[i] == '-' by {
            assert(less[i] == e[i]);
        }
        trailing_dashes(core, less);
        assert((core + e).last() == e[e.len() - 1]);
        assert((core + e).subrange(0, (core + e).len() - 1) =~= core + less);
    }
}

/// Where the front holds no character that `pat` begins with, `pat` is not found
/// in it.
proof fn not_found_before(front: Seq<char>, rest: Seq<char>, pat: Seq<char>)
    requires
        pat.len() > 0,
        free_of(front, pat[0]),
    ensures
        position_of(front + rest, pat) matches Some(i) ==> i >= front.len(),
{
    let s = front + rest;
    position_from_is_first(s, pat, 0);
    if let Some(i) = position_of(s, pat) {
        if i < front.len() {
            assert(s.subrange(i, i + pat.len())[0] == s[i]);
            assert(s[i] == front[i]);
        }
    }
}

/// The body of a cell is what follows its style, once the body's first mark is
/// found there.
proof fn body_follows_style(front: Seq<char>, body: Seq<char>)
    requires
        is_style(front),
        begins(body, "<!--"@) || begins(body, "[["@) || begins(body, "''"@),
    ensures
        cell_body(front + body) == trimmed(body),
{
    reveal_strlit("<!--");
    reveal_strlit("[[");
    reveal_strlit("''");
    reveal_strlit("|");
    let cell = front + body;
    let n = front.len() as int;
    not_found_before(front, body, "<!--"@);
    not_found_before(front, body, "[["@);
    not_found_before(front, body, "''"@);
    position_from_is_first(cell, "<!--"@, 0);
    position_from_is_first(cell, "[["@, 0);
    position_from_is_first(cell, "''"@, 0);
    if begins(body, "<!--"@) {
        assert(cell.subrange(n, n + 4) =~= body.subrange(0, 4));
        assert(occurs_at(cell, "<!--"@, n));
    } else if begins(body, "[["@) {
        assert(cell.subrange(n, n + 2) =~= body.subrange(0, 2));
        assert(occurs_at(cell, "[["@, n));
    } else {
        assert(cell.subrange(n, n + 2) =~= body.subrange(0, 2));
        assert(occurs_at(cell, "''"@, n));
    }
    assert(body_start(cell) == n);
    let head = cell.subrange(0, n);
    assert(head =~= front);
    last_position_is_last(front, "|"@, front.len() as int + 1);
    if n > 0 {
        assert(front.subrange(n - 2, n - 1) =~= "|"@);
        assert(occurs_at(front, "|"@, n - 2));
        let i = last_position_of(front, "|"@)->0;
        assert(last_position_of(front, "|"@) is Some);
        if i > n - 2 {
            assert(front.subrange(i, i + 1)[0] == front[i]);
        }
        assert(i == n - 2);
        let rest = cell.subrange(i + 1, cell.len() as int);
        assert(rest =~= seq![' '] + body + seq![]);
        padding_is_trimmed(seq![' '], body, seq![]);
    } else {
        assert(cell =~= body);
        if let Some(i) = last_position_of(front, "|"@) {
            assert(occurs_at(front, "|"@, i));
        }
    }
}

/// A cell's opening comment labels it: the label is the comment without the
/// dashes around it, if a letter stands in it, and nothing otherwise.
proof fn a_comment_labels_a_cell(
    front: Seq<char>,
    d: Seq<char>,
    core: Seq<char>,
    e: Seq<char>,
    follows: Seq<char>,
)
    requires
        is_style(front),
        dashes(d),
        dashes(e),
        is_core(core),
        free_of(core, '>'),
    ensures
        slot_label_split(
            cell_body(front + ("<!--"@ + (d + core + e) + "-->"@ + follows)),
        ) == (
            if exists|i: int| 0 <= i < core.len() && alphabetic_property(#[trigger] core[i]) {
                core
            } else {
                seq![]
            },
            trimmed(follows),
        ),
{
    reveal_strlit("<!--");
    reveal_strlit("-->");
    let comment = d + core + e;
    let body = "<!--"@ + comment + "-->"@ + follows;
    assert(body.subrange(0, 4) =~= "<!--"@);
    body_follows_style(front, body);
    let p = "<!--"@ + comment + "-->"@;
    assert(body =~= p + follows);
    assert(p.last() == '>');
    assert(body[0] == '<');
    assert(trimmed_start(body) == body);
    end_behind(p, follows);
    let te = trimmed_end(follows);
    let t = p + te;
    assert(trimmed(body) == t);
    assert(t.subrange(0, 4) =~= "<!--"@);
    assert(t.subrange(4, t.len() as int) =~= comment + "-->"@ + te);
    assert(stripped(t, "<!--"@) == Some(comment + "-->"@ + te));
    assert forall|i: int| 0 <= i < comment.len() implies #[trigger] comment[i] != '>' by {
        if i < d.len() {
            assert(comment[i] == d[i]);
        } else if i < d.len() + core.len() {
            assert(comment[i] == core[i - d.len()]);
        } else {
            assert(comment[i] == e[i - d.len() - core.len()]);
        }
    }
    close_is_found(comment, te);
    dashes_are_taken_off(d, core, e);
    let y = end_splits(follows);
    assert(seq![] + te + y =~= follows);
    padding_is_trimmed(seq![], te, y);
}

/// What a result is written as: its link, between marks for italics where it
/// stands in for another, and its points behind a line break.
pub open spec fn written_result(
    mark: Seq<char>,
    title: Seq<char>,
    round: Seq<char>,
    points: u32,
) -> Seq<char> {
    mark + "[["@ + title + "|"@ + round + "]]"@ + mark + "<br/>"@ + grouped(points as nat)
}

/// A title and a round that can be written in a link, and that nothing is
/// trimmed from.
pub open spec fn is_written(title: Seq<char>, round: Seq<char>) -> bool {
    &&& free_of(title, '|') && free_of(title, ']') && free_of(title, '<')
    &&& title.len() > 0 && !is_space(title[0]) && !is_space(title.last())
    &&& free_of(round, '|') && free_of(round, ']') && unmarked(round)
    &&& round.len() > 0 && !is_space(round[0]) && !is_space(round.last())
}

proof fn points_follow_the_break(front: Seq<char>, n: u32)
    ensures
        points_in(front + "<br/>"@ + grouped(n as nat)) == Some(n),
{
    reveal_strlit("<br");
    reveal_strlit("<br/>");
    reveal_strlit(">");
    let g = grouped(n as nat);
    let s = front + "<br/>"@ + g;
    let k = front.len() as int;
    grouped_numbers_read_back(n);
    assert forall|i: int| 0 <= i < g.len() implies #[trigger] g[i] != '<' by {
        crate::display::commas_stand_before_every_third_digit(n as nat);
        if (g.len() - i) % 4 != 0 {
            assert(is_digit(g[i]));
        }
    }
    assert(s.subrange(k, k + 3) =~= "<br"@);
    last_position_is_last(s, "<br"@, s.len() as int + 1);
    assert(occurs_at(s, "<br"@, k));
    let i = last_position_of(s, "<br"@)->0;
    assert(last_position_of(s, "<br"@) is Some);
    if i > k {
        assert(s.subrange(i, i + 3)[0] == s[i]);
        if i < k + 5 {
            assert(s[i] == "<br/>"@[i - k]);
        } else {
            assert(s[i] == g[i - k - 5]);
        }
    }
    assert(i == k);
    let tail = s.subrange(k, s.len() as int);
    let opening = seq!['<', 'b', 'r', '/'];
    assert(tail =~= opening + ">"@ + g);
    cut_behind(opening, ">"@, g);
}

/// What a written result says, once it is the body of a cell.
proof fn a_written_result_is_read(mark: Seq<char>, title: Seq<char>, round: Seq<char>, n: u32)
    requires
        mark == "''"@ || mark.len() == 0,
        is_written(title, round),
    ensures
        ({
            let body = written_result(mark, title, round, n);
            &&& trimmed(body) == body
            &&& link_target(body) == Some(title)
            &&& link_label(body) == Some(round)
            &&& points_in(body) == Some(n)
            &&& begins(body, "''"@) == (mark.len() > 0)
            &&& mark.len() == 0 ==> begins(body, "[["@)
        }),
{
    reveal_strlit("''");
    reveal_strlit("[[");
    reveal_strlit("<br/>");
    let g = grouped(n as nat);
    let body = written_result(mark, title, round, n);
    let rest = mark + "<br/>"@ + g;
    assert(body =~= mark + "[["@ + title + "|"@ + round + "]]"@ + rest);
    a_piped_link_is_read(mark, title, round, rest);
    bare_text_is_kept(title);
    unmarked_text_reads_as_it_is(round);
    bare_text_is_kept(round);
    let front = mark + "[["@ + title + "|"@ + round + "]]"@ + mark;
    assert(body =~= front + "<br/>"@ + g);
    points_follow_the_break(front, n);
    grouped_numbers_read_back(n);
    digit_is_bare(g.last());
    assert(body.last() == g.last());
    if mark.len() > 0 {
        assert(body[0] == '\'');
        assert(body.subrange(0, 2) =~= "''"@);
    } else {
        assert(body[0] == '[');
        assert(body.subrange(0, 2) =~= "[["@);
        assert(body.subrange(0, 2)[0] == body[0]);
    }
    bare_text_is_kept(body);
}

/// A ledger cell with a link is a result: the event that the link leads to, the
/// round that it shows, and the points behind the line break. It stands in for
/// the column's event exactly when it is in italics. The comment in front names
/// the column's event, if a letter stands in it; the cell's style does not
/// matter.
pub proof fn a_ledger_cell_with_a_link_is_a_result(
    front: Seq<char>,
    d: Seq<char>,
    core: Seq<char>,
    e: Seq<char>,
    mark: Seq<char>,
    title: Seq<char>,
    round: Seq<char>,
    n: u32,
    slot: Slot,
)
    requires
        is_style(front),
        dashes(d),
        dashes(e),
        is_core(core),
        free_of(core, '>'),
        mark == "''"@ || mark.len() == 0,
        is_written(title, round),
    ensures
        ({
            let r = cell_result(
                front + ("<!--"@ + (d + core + e) + "-->"@ + (" "@ + written_result(
                    mark,
                    title,
                    round,
                    n,
                ))),
                slot,
            );
            &&& r.slot == slot
            &&& r.played == Played::Result
            &&& r.event_code == title
            &&& r.event_name == shown_event(title)
            &&& r.round == round
            &&& r.points == n
            &&& r.substituted == (mark.len() > 0)
            &&& r.slot_label == (if exists|i: int|
                0 <= i < core.len() && alphabetic_property(#[trigger] core[i]) {
                core
            } else {
                seq![]
            })
        }),
{
    reveal_strlit(" ");
    let body = written_result(mark, title, round, n);
    a_written_result_is_read(mark, title, round, n);
    a_comment_labels_a_cell(front, d, core, e, " "@ + body);
    assert(" "@ + body =~= seq![' '] + body + seq![]);
    padding_is_trimmed(seq![' '], body, seq![]);
}

/// A ledger cell without a comment is read the same, and has no label.
pub proof fn a_cell_without_a_comment_has_no_label(
    front: Seq<char>,
    mark: Seq<char>,
    title: Seq<char>,
    round: Seq<char>,
    n: u32,
    slot: Slot,
)
    requires
        is_style(front),
        mark == "''"@ || mark.len() == 0,
        is_written(title, round),
    ensures
        ({
            let r = cell_result(front + written_result(mark, title, round, n), slot);
            &&& r.slot == slot
            &&& r.slot_label.len() == 0
            &&& r.played == Played::Result
            &&& r.event_code == title
            &&& r.event_name == shown_event(title)
            &&& r.round == round
            &&& r.points == n
            &&& r.substituted == (mark.len() > 0)
        }),
{
    reveal_strlit("<!--");
    let body = written_result(mark, title, round, n);
    a_written_result_is_read(mark, title, round, n);
    body_follows_style(front, body);
    assert(body.subrange(0, 4)[0] == body[0]) by {
        reveal_strlit("[[");
        reveal_strlit("''");
    }
    assert(!(begins(body, "<!--"@))) by {
        reveal_strlit("[[");
        reveal_strlit("''");
        if mark.len() > 0 {
            assert(body[0] == '\'');
        } else {
            assert(body[0] == '[');
        }
    }
}

/// A ledger cell without a link is no result and carries no points: an event not
/// held yet where nothing stands in it, and one that was skipped where something
/// does.
pub proof fn a_ledger_cell_without_a_link_is_no_result(
    front: Seq<char>,
    d: Seq<char>,
    core: Seq<char>,
    e: Seq<char>,
    text: Seq<char>,
    slot: Slot,
)
    requires
        is_style(front),
        dashes(d),
        dashes(e),
        is_core(core),
        free_of(core, '>'),
        free_of(text, '['),
        unmarked(text),
    ensures
        ({
            let r = cell_result(
                front + ("<!--"@ + (d + core + e) + "-->"@ + text),
                slot,
            );
            &&& r.slot == slot
            &&& r.played == (if blank(text) {
                Played::Pending
            } else {
                Played::Absent
            })
            &&& r.points == 0
            &&& !r.substituted
            &&& r.event_code.len() == 0 && r.event_name.len() == 0 && r.round.len() == 0
            &&& r.slot_label == (if exists|i: int|
                0 <= i < core.len() && alphabetic_property(#[trigger] core[i]) {
                core
            } else {
                seq![]
            })
        }),
{
    a_comment_labels_a_cell(front, d, core, e, text);
    let t = trimmed(text);
    let (x, y) = crate::reading::trimming_takes_only_the_ends(text);
    assert forall|i: int| 0 <= i < t.len() implies #[trigger] t[i] == text[x.len() + i] by {}
    assert forall|i: int| 0 <= i < t.len() implies #[trigger] t[i] != '[' && t[i] != '<' && t[i]
        != '>' && t[i] != '\'' by {
        assert(t[i] == text[x.len() + i]);
    }
    no_bracket_no_link(t);
    unmarked_text_reads_as_it_is(t);
    bare_text_is_kept(t);
    if blank(text) {
        blank_is_trimmed_away(text);
    } else if t.len() == 0 {
        assert(text =~= x + y);
        assert(blank(text)) by {
            assert forall|i: int| 0 <= i < text.len() implies is_space(#[trigger] text[i]) by {
                if i < x.len() {
                    assert(text[i] == x[i]);
                } else {
                    assert(text[i] == y[i - x.len()]);
                }
            }
        }
    }
}

/// Where no earlier character of `pat` is the `q`-th, and the front does not
/// hold that one, `pat` is found behind the front.
proof fn cut_behind_by(a: Seq<char>, pat: Seq<char>, b: Seq<char>, q: int)
    requires
        0 <= q < pat.len(),
        free_of(a, pat[q]),
        forall|r: int| 0 <= r < q ==> #[trigger] pat[r] != pat[q],
    ensures
        cut(a + pat + b, pat) == Some((a, b)),
{
    let s = a + pat + b;
    let n = a.len() as int;
    assert(s.subrange(n, n + pat.len()) =~= pat);
    assert forall|j: int| 0 <= j < n implies !occurs_at(s, pat, j) by {
        if occurs_at(s, pat, j) {
            assert(s.subrange(j, j + pat.len())[q] == s[j + q]);
            if j + q < n {
                assert(s[j + q] == a[j + q]);
            } else {
                assert(s[j + q] == pat[j + q - n]);
            }
        }
    }
    first_position_is_found(s, pat, n);
    assert(s.subrange(0, n) =~= a);
    assert(s.subrange(n + pat.len(), s.len() as int) =~= b);
}

/// An event goes by its article's title without the season in front and without
/// what follows a dash between spaces.
pub proof fn events_go_by_their_names(season: Seq<char>, name: Seq<char>, draw: Seq<char>)
    requires
        season.len() == 4,
        forall|i: int| 0 <= i < 4 ==> is_digit(#[trigger] season[i]),
        name.len() > 0,
        !is_space(name[0]),
        !is_space(name.last()),
        free_of(name, '–'),
        !(has(" "@ + name, " - "@)),
    ensures
        shown_event(season + " "@ + name + " – "@ + draw) == name,
        shown_event(season + " "@ + name) == name,
        free_of(draw, '–') && name.last() != '-' ==> shown_event(season + " "@ + name + " - "@ + draw) == name,
{
    reveal_strlit(" ");
    reveal_strlit(" – ");
    reveal_strlit(" - ");
    let head = season + " "@ + name;
    assert forall|i: int| 0 <= i < head.len() implies #[trigger] head[i] != '–' by {
        if i < 4 {
            assert(is_digit(season[i]));
        } else if i > 4 {
            assert(head[i] == name[i - 5]);
        }
    }
    let tail = " "@ + name;
    position_from_is_first(tail, " - "@, 0);
    position_from_is_first(head, " - "@, 0);
    if let Some(j) = position_of(head, " - "@) {
        assert(head.subrange(j, j + 3)[0] == head[j]);
        if j < 4 {
            assert(is_digit(season[j]));
        } else {
            assert(head.subrange(j, j + 3) =~= tail.subrange(j - 4, j - 1));
            assert(occurs_at(tail, " - "@, j - 4));
        }
    }
    lacks(head, " – "@, 1);
    assert(before(head, " – "@) == head);
    assert(before(head, " - "@) == head);
    assert(is_digit(season[0]) && is_digit(season[1]) && is_digit(season[2]) && is_digit(
        season[3],
    ));
    assert(head[0] == season[0]);
    assert(head.last() == name.last());
    bare_text_is_kept(head);
    assert(head.subrange(5, head.len() as int) =~= name);
    assert(begins_with_season(head));
    cut_behind_by(head, " – "@, draw, 1);
    let hyphened = head + " - "@ + draw;
    if free_of(draw, '–') && name.last() != '-' {
        assert forall|i: int| 0 <= i < hyphened.len() implies #[trigger] hyphened[i] != '–' by {
            if i < head.len() {
                assert(hyphened[i] == head[i]);
            } else if i >= head.len() + 3 {
                assert(hyphened[i] == draw[i - head.len() - 3]);
            } else {
                assert(hyphened[i] == " - "@[i - head.len()]);
            }
        }
        lacks(hyphened, " – "@, 1);
        let n = head.len() as int;
        assert(hyphened.subrange(n, n + 3) =~= " - "@);
        assert forall|j: int| 0 <= j < n implies !occurs_at(hyphened, " - "@, j) by {
            if occurs_at(hyphened, " - "@, j) {
                let w = hyphened.subrange(j, j + 3);
                assert(w[0] == hyphened[j] && w[1] == hyphened[j + 1]);
                if j + 3 <= n {
                    assert(w =~= head.subrange(j, j + 3));
                    assert(occurs_at(head, " - "@, j));
                } else if j + 1 == n {
                    assert(hyphened[j + 1] == ' ');
                } else {
                    assert(hyphened[j + 1] == head[n - 1]);
                    assert(head[n - 1] == head.last());
                }
            }
        }
        first_position_is_found(hyphened, " - "@, n);
        assert(hyphened.subrange(0, n) =~= head);
    }
}

// ---------------------------------------------------------------------------
// The header and its columns
// ---------------------------------------------------------------------------

/// A header cell that spans columns under a block's title, in whatever case,
/// declares that many columns of the block.
pub proof fn header_cells_declare_their_blocks(n: u32, title: Seq<char>)
    ensures
        in_any_case(title, "Grand Slam"@) ==> group_in_line(
            "! colspan=\""@ + decimal(n as nat) + "\" | "@ + title,
        ) == Some((Slot::GrandSlam, n as usize)),
        in_any_case(title, "Masters 1000"@) ==> group_in_line(
            "! colspan=\""@ + decimal(n as nat) + "\" | "@ + title,
        ) == Some((Slot::Mandatory1000, n as usize)),
        in_any_case(title, "Best other"@) ==> group_in_line(
            "! colspan=\""@ + decimal(n as nat) + "\" | "@ + title,
        ) == Some((Slot::BestOther, n as usize)),
{
    if in_any_case(title, "Grand Slam"@) {
        block_titles();
        header_cell_is_read(n, title, "Grand Slam"@, "grand slam"@);
    }
    if in_any_case(title, "Masters 1000"@) {
        block_titles();
        header_cell_is_read(n, title, "Masters 1000"@, "masters 1000"@);
        header_cell_lacks(n, title, "Masters 1000"@, "grand slam"@, 'g');
    }
    if in_any_case(title, "Best other"@) {
        block_titles();
        header_cell_is_read(n, title, "Best other"@, "best other"@);
        header_cell_lacks(n, title, "Best other"@, "grand slam"@, 'g');
        header_cell_lacks(n, title, "Best other"@, "masters 1000"@, 'm');
    }
}

proof fn block_titles()
    ensures
        lowered("Grand Slam"@) == "grand slam"@,
        lowered("Masters 1000"@) == "masters 1000"@,
        lowered("Best other"@) == "best other"@,
        "Grand Slam"@.len() == 10 && "Masters 1000"@.len() == 12 && "Best other"@.len() == 10,
        "grand slam"@.len() == 10 && "grand slam"@[0] == 'g',
        "masters 1000"@.len() == 12 && "masters 1000"@[0] == 'm',
        "best other"@.len() == 10,
        free_of("masters 1000"@, 'g'),
        free_of("best other"@, 'g'),
        free_of("best other"@, 'm'),
        unmarked("grand slam"@) && unmarked("masters 1000"@) && unmarked("best other"@),
        forall|c: char|
            is_space(c) ==> c != "grand slam"@[0] && c != "grand slam"@[9] && c
                != "masters 1000"@[0] && c != "masters 1000"@[11] && c != "best other"@[0] && c
                != "best other"@[9],
{
    reveal_strlit("Grand Slam");
    reveal_strlit("grand slam");
    reveal_strlit("Masters 1000");
    reveal_strlit("masters 1000");
    reveal_strlit("Best other");
    reveal_strlit("best other");
    assert(lowered("Grand Slam"@) =~= "grand slam"@);
    assert(lowered("Masters 1000"@) =~= "masters 1000"@);
    assert(lowered("Best other"@) =~= "best other"@);
}

/// What a header cell holds behind its exclamation mark.
spec fn header_rest(n: u32, title: Seq<char>) -> Seq<char> {
    " colspan=\""@ + decimal(n as nat) + "\" | "@ + title
}

/// What a character is made of, in lower case.
proof fn lowered_marks(c: char)
    ensures
        crate::text::lower_char(c) == '<' ==> c == '<',
        crate::text::lower_char(c) == '>' ==> c == '>',
        crate::text::lower_char(c) == '\'' ==> c == '\'',
        c == '<' || c == '>' || c == '\'' ==> crate::text::lower_char(c) == c,
        is_space(c) ==> crate::text::lower_char(c) == c,
{
    let x = c as u32;
    if crate::text::is_upper(c) {
        assert(crate::text::lower_char(c) as u32 == x + 32);
    }
}

/// The text of a header cell in lower case, and that nothing of it is markup.
proof fn header_text(n: u32, title: Seq<char>, low: Seq<char>)
    requires
        lowered(title) == low,
        low.len() > 0,
        unmarked(low),
        !is_space(low[0]),
        !is_space(low.last()),
    ensures
        lowered(plain(header_rest(n, title))) == "colspan=\""@ + decimal(n as nat) + "\" | "@
            + low,
        title.len() == low.len(),
        !is_space(title.last()),
{
    reveal_strlit(" colspan=\"");
    reveal_strlit("colspan=\"");
    reveal_strlit("\" | ");
    let d = decimal(n as nat);
    decimals_read_back(n as nat);
    let rest = header_rest(n, title);
    assert(lowered(title).len() == title.len());
    assert forall|i: int| 0 <= i < title.len() implies #[trigger] title[i] != '<' && title[i] != '>'
        && title[i] != '\'' by {
        lowered_marks(title[i]);
        assert(lowered(title)[i] == crate::text::lower_char(title[i]));
        assert(low[i] != '<' && low[i] != '>' && low[i] != '\'');
    }
    lowered_marks(title.last());
    assert(lowered(title)[title.len() - 1] == low[low.len() - 1]);
    let p = " colspan=\""@.len() as int;
    let q = p + d.len();
    assert forall|i: int| 0 <= i < rest.len() implies #[trigger] rest[i] != '<' && rest[i] != '>'
        && rest[i] != '\'' by {
        if i < p {
            assert(rest[i] == " colspan=\""@[i]);
        } else if i < q {
            assert(rest[i] == d[i - p]);
            assert(is_digit(d[i - p]));
        } else if i < q + 4 {
            assert(rest[i] == "\" | "@[i - q]);
        } else {
            assert(rest[i] == title[i - q - 4]);
        }
    }
    unmarked_text_reads_as_it_is(rest);
    let core = "colspan=\""@ + d + "\" | "@ + title;
    assert(rest =~= seq![' '] + core + seq![]);
    padding_is_trimmed(seq![' '], core, seq![]);
    assert(core[0] == 'c');
    assert(core.last() == title.last());
    bare_text_is_kept(core);
    let want = "colspan=\""@ + d + "\" | "@ + low;
    assert forall|i: int| 0 <= i < core.len() implies lowered(core)[i] == want[i] by {
        let p = "colspan=\""@.len() as int;
        let q = p + d.len();
        if i < p {
            assert(core[i] == "colspan=\""@[i]);
        } else if i < q {
            assert(core[i] == d[i - p]);
            assert(is_digit(d[i - p]));
        } else if i < q + 4 {
            assert(core[i] == "\" | "@[i - q]);
        } else {
            assert(core[i] == title[i - q - 4]);
            assert(lowered(title)[i - q - 4] == low[i - q - 4]);
        }
    }
    assert(lowered(core) =~= want);
}

proof fn header_cell_is_read(n: u32, title: Seq<char>, word: Seq<char>, low: Seq<char>)
    requires
        in_any_case(title, word),
        lowered(word) == low,
        low.len() > 0,
        unmarked(low),
        !is_space(low[0]),
        !is_space(low[low.len() - 1]),
    ensures
        ({
            let line = "! colspan=\""@ + decimal(n as nat) + "\" | "@ + title;
            let rest = header_rest(n, title);
            &&& stripped(trimmed(line), "!"@) == Some(rest)
            &&& attribute(rest, "colspan"@) == Some(n as usize)
            &&& has(lowered(plain(rest)), low)
        }),
{
    reveal_strlit("! colspan=\"");
    reveal_strlit(" colspan=\"");
    reveal_strlit("colspan=\"");
    reveal_strlit("\" | ");
    reveal_strlit("!");
    reveal_strlit("colspan");
    reveal_strlit("=\"");
    lower_case_compares_without_case(title, word);
    header_text(n, title, low);
    let d = decimal(n as nat);
    let rest = header_rest(n, title);
    let line = "! colspan=\""@ + d + "\" | "@ + title;
    assert(line =~= "!"@ + rest);
    assert(line[0] == '!');
    assert(line.last() == title.last());
    bare_text_is_kept(line);
    assert(line.subrange(0, 1) =~= "!"@);
    assert(line.subrange(1, line.len() as int) =~= rest);
    let a = seq![' '];
    let after = "\" | "@ + title;
    assert(rest =~= a + "colspan"@ + "=\""@ + d + after);
    lacks(a, "colspan"@, 0);
    assert(after[0] == '"');
    crate::reading::attributes_are_read_with_or_without_quotes(a, "colspan"@, n, after);
    let shown = lowered(plain(rest));
    let front = "colspan=\""@ + d + "\" | "@;
    let k = front.len() as int;
    assert(shown.subrange(k, k + low.len()) =~= low);
    holds(shown, low, k);
}

proof fn header_cell_lacks(
    n: u32,
    title: Seq<char>,
    word: Seq<char>,
    pat: Seq<char>,
    c: char,
)
    requires
        in_any_case(title, word),
        lowered(word).len() > 0,
        unmarked(lowered(word)),
        !is_space(lowered(word)[0]),
        !is_space(lowered(word)[lowered(word).len() - 1]),
        free_of(lowered(word), c),
        pat.len() > 0,
        pat[0] == c,
        c == 'g' || c == 'm',
    ensures
        !(has(lowered(plain(header_rest(n, title))), pat)),
{
    reveal_strlit("colspan=\"");
    reveal_strlit("\" | ");
    let low = lowered(word);
    lower_case_compares_without_case(title, word);
    header_text(n, title, low);
    let d = decimal(n as nat);
    decimals_read_back(n as nat);
    let shown = "colspan=\""@ + d + "\" | "@ + low;
    let p = "colspan=\""@.len() as int;
    let q = p + d.len();
    assert forall|i: int| 0 <= i < shown.len() implies #[trigger] shown[i] != c by {
        if i < p {
            assert(shown[i] == "colspan=\""@[i]);
        } else if i < q {
            assert(shown[i] == d[i - p]);
            assert(is_digit(d[i - p]));
        } else if i < q + 4 {
            assert(shown[i] == "\" | "@[i - q]);
        } else {
            assert(shown[i] == low[i - q - 4]);
        }
    }
    lacks(shown, pat, 0);
}

/// The columns come block by block, each block as wide as declared.
pub proof fn columns_follow_the_declared_widths(groups: Seq<(Slot, usize)>, g: int, k: int)
    requires
        0 <= g < groups.len(),
        0 <= k < groups[g].1,
    ensures
        columns(groups.take(g)).len() + k < columns(groups).len(),
        columns(groups)[columns(groups.take(g)).len() + k] == groups[g].0,
        columns(groups.take(g + 1)).len() == columns(groups.take(g)).len() + groups[g].1,
        columns(groups.take(0)).len() == 0,
        columns(groups.take(groups.len() as int)) == columns(groups),
    decreases groups.len(),
{
    let front = groups.drop_last();
    let n = groups.len() - 1;
    assert(groups.take(groups.len() as int) =~= groups);
    assert(groups.take(0).len() == 0);
    let upto = groups.take(g + 1);
    assert(upto.drop_last() =~= groups.take(g));
    assert(upto.last() == groups[g]);
    if g < n {
        assert(front.take(g) =~= groups.take(g));
        assert(front[g] == groups[g]);
        columns_follow_the_declared_widths(front, g, k);
    } else {
        assert(groups.take(g) =~= front);
    }
}

/// A ledger is what the cells behind the player's say, each in its column's
/// slot, as far as there are both cells and columns, without the unused columns
/// for other results.
pub proof fn a_ledger_reads_cell_by_cell(
    cells: Seq<Seq<char>>,
    at: int,
    groups: Seq<(Slot, usize)>,
)
    requires
        0 <= at < cells.len(),
    ensures
        ({
            let slots = columns(groups);
            let n = if cells.len() - at - 1 < slots.len() {
                (cells.len() - at - 1) as nat
            } else {
                slots.len()
            };
            ledger_in(cells, at, groups) == Seq::new(
                n,
                |j: int| cell_result(cells[at + 1 + j], slots[j]),
            ).filter(
                |r: ResultModel| !(r.slot == Slot::BestOther && r.played == Played::Pending),
            )
        }),
{
    let slots = columns(groups);
    let n = filled(cells, at + 1, slots);
    entries_are_filtered(cells, at + 1, slots, n);
}

proof fn entries_are_filtered(cells: Seq<Seq<char>>, from: int, slots: Seq<Slot>, n: int)
    requires
        0 <= n,
    ensures
        entries(cells, from, slots, n) == Seq::new(
            n as nat,
            |j: int| cell_result(cells[from + j], slots[j]),
        ).filter(|r: ResultModel| !(r.slot == Slot::BestOther && r.played == Played::Pending)),
    decreases n,
{
    let all = Seq::new(n as nat, |j: int| cell_result(cells[from + j], slots[j]));
    if n > 0 {
        entries_are_filtered(cells, from, slots, n - 1);
        let less = Seq::new((n - 1) as nat, |j: int| cell_result(cells[from + j], slots[j]));
        let r = cell_result(cells[from + n - 1], slots[n - 1]);
        assert(all =~= less.push(r));
        one_more_entry(less, r);
    } else {
        no_entries(all);
    }
}

proof fn one_more_entry(less: Seq<ResultModel>, r: ResultModel)
    ensures
        less.push(r).filter(
            |r: ResultModel| !(r.slot == Slot::BestOther && r.played == Played::Pending),
        ) == (if worth_an_entry(r) {
            less.filter(
                |r: ResultModel| !(r.slot == Slot::BestOther && r.played == Played::Pending),
            ).push(r)
        } else {
            less.filter(
                |r: ResultModel| !(r.slot == Slot::BestOther && r.played == Played::Pending),
            )
        }),
{
    let keep = |r: ResultModel| !(r.slot == Slot::BestOther && r.played == Played::Pending);
    less.lemma_filter_push(r, keep);
}

proof fn no_entries(none: Seq<ResultModel>)
    requires
        none.len() == 0,
    ensures
        none.filter(
            |r: ResultModel| !(r.slot == Slot::BestOther && r.played == Played::Pending),
        ) == Seq::<ResultModel>::empty(),
{
    reveal(Seq::filter);
    let keep = |r: ResultModel| !(r.slot == Slot::BestOther && r.played == Played::Pending);
    assert(none.filter(keep) =~= Seq::<ResultModel>::empty());
}

// ---------------------------------------------------------------------------
// The row
// ---------------------------------------------------------------------------

proof fn player_cell_is_first(cells: Seq<Seq<char>>, aligned: bool, from: int)
    requires
        0 <= from,
    ensures
        match player_cell_from(cells, aligned, from) {
            Some(i) => {
                &&& from <= i < cells.len()
                &&& is_player_cell(cells[i], aligned)
                &&& forall|k: int| from <= k < i ==> !is_player_cell(#[trigger] cells[k], aligned)
            },
            None => forall|k: int|
                from <= k < cells.len() ==> !is_player_cell(#[trigger] cells[k], aligned),
        },
    decreases cells.len() - from,
{
    if from < cells.len() && !is_player_cell(cells[from], aligned) {
        player_cell_is_first(cells, aligned, from + 1);
    }
}

/// The player's cell is the first one with a link and the left alignment; where
/// no cell with a link is aligned, the first one with a link; and a row without
/// a link has none.
pub proof fn the_player_stands_in_the_aligned_link(cells: Seq<Seq<char>>, i: int)
    ensures
        0 <= i < cells.len() && has(cells[i], "[["@) && has(cells[i], "align=\"left\""@) && (
        forall|k: int|
            0 <= k < i ==> !(has(#[trigger] cells[k], "[["@) && has(cells[k], "align=\"left\""@)))
            ==> player_cell(cells) == Some(i),
        0 <= i < cells.len() && has(cells[i], "[["@) && (forall|k: int|
            0 <= k < i ==> !(has(#[trigger] cells[k], "[["@))) && (forall|k: int|
            0 <= k < cells.len() && has(#[trigger] cells[k], "[["@) ==> !(has(
                cells[k],
                "align=\"left\""@,
            ))) ==> player_cell(cells) == Some(i),
        (forall|k: int| 0 <= k < cells.len() ==> !(has(#[trigger] cells[k], "[["@)))
            ==> player_cell(cells) is None,
{
    player_cell_is_first(cells, true, 0);
    player_cell_is_first(cells, false, 0);
    if 0 <= i < cells.len() && has(cells[i], "[["@) && has(cells[i], "align=\"left\""@) && (
    forall|k: int|
        0 <= k < i ==> !(has(#[trigger] cells[k], "[["@) && has(cells[k], "align=\"left\""@))) {
        assert(is_player_cell(cells[i], true));
        if let Some(j) = player_cell_from(cells, true, 0) {
            if j < i {
                assert(is_player_cell(cells[j], true));
            }
        }
    }
    if 0 <= i < cells.len() && has(cells[i], "[["@) && (forall|k: int|
        0 <= k < i ==> !(has(#[trigger] cells[k], "[["@))) && (forall|k: int|
        0 <= k < cells.len() && has(#[trigger] cells[k], "[["@) ==> !(has(
            cells[k],
            "align=\"left\""@,
        ))) {
        assert(is_player_cell(cells[i], false));
        if let Some(j) = player_cell_from(cells, true, 0) {
            assert(is_player_cell(cells[j], true));
        }
        if let Some(j) = player_cell_from(cells, false, 0) {
            if j < i {
                assert(is_player_cell(cells[j], false));
            }
        }
    }
}

/// A row of the table shows the rank in its first cell; the player's article,
/// name and flag from the player's cell; and behind its exclamation marks the
/// total, the tournaments and the titles, in this order. Its breakdown is its
/// ledger where that adds up to the total, and nothing otherwise.
pub proof fn a_row_is_read_from_its_cells(chunk: Seq<char>, groups: Seq<(Slot, usize)>)
    ensures
        chunk_in(chunk, groups) matches Chunk::Row(row) ==> {
            let cells = crate::source::cells_in(lines_of(chunk));
            let numbers = totals_in(lines_of(chunk));
            &&& cells.len() >= 3
            &&& crate::source::int_in(
                plain(trimmed(crate::text::after_last(cells[0], "|"@))),
            ) == Some(row.rank)
            &&& player_cell(cells) matches Some(at) && {
                &&& link_target(cells[at]) == Some(row.player_code)
                &&& row.player_name == crate::source::shown_name(row.player_code)
                &&& row.country == crate::source::flag_in(cells[at])
                &&& ledger_sum(ledger_in(cells, at, groups)) == row.race_points ==> row.results
                    == ledger_in(cells, at, groups)
                &&& ledger_sum(ledger_in(cells, at, groups)) != row.race_points
                    ==> row.results.len() == 0
            }
            &&& numbers.len() >= 1 && row.race_points == numbers[0]
            &&& row.tournaments_played == (if numbers.len() >= 2 {
                Some(numbers[1])
            } else {
                None
            })
            &&& row.titles == (if numbers.len() >= 3 {
                Some(numbers[2])
            } else {
                None
            })
            &&& row.movement is None
        },
{
}

/// A chunk is no row exactly when it is the separator above the alternates, has
/// fewer than three cells or shows no rank; a row with a rank and without a
/// player, an article or a total is an error that names the rank.
pub proof fn what_is_no_row(chunk: Seq<char>, groups: Seq<(Slot, usize)>)
    ensures
        ({
            let cells = crate::source::cells_in(lines_of(chunk));
            let rank = crate::source::int_in(
                plain(trimmed(crate::text::after_last(cells[0], "|"@))),
            );
            &&& chunk_in(chunk, groups) is Skip <==> (has(chunk, "Alternates"@) && has(
                chunk,
                "colspan"@,
            )) || cells.len() < 3 || rank is None
            &&& chunk_in(chunk, groups) matches Chunk::Fail(e) ==> rank matches Some(r) && {
                ||| player_cell(cells) is None && e == ErrorModel::NoPlayerCell { rank: r }
                ||| player_cell(cells) matches Some(at) && link_target(cells[at]) is None && e
                    == (ErrorModel::NoArticleLink { rank: r })
                ||| player_cell(cells) matches Some(at) && link_target(cells[at]) is Some
                    && totals_in(lines_of(chunk)).len() == 0 && e == (ErrorModel::NoTotal {
                    rank: r,
                })
            }
            &&& chunk_in(chunk, groups) is Row ==> player_cell(cells) is Some && totals_in(
                lines_of(chunk),
            ).len() > 0
        }),
{
}

/// The numbers of a row are read line by line, in the order of the lines.
pub proof fn numbers_keep_the_order_of_the_lines(a: Seq<Seq<char>>, b: Seq<Seq<char>>)
    ensures
        totals_in(a + b) == totals_in(a) + totals_in(b),
    decreases b.len(),
{
    if b.len() == 0 {
        assert(a + b =~= a);
        assert(totals_in(a) + totals_in(b) =~= totals_in(a));
    } else {
        numbers_keep_the_order_of_the_lines(a, b.drop_last());
        assert((a + b).drop_last() =~= a + b.drop_last());
        assert((a + b).last() == b.last());
        assert(totals_in(a + b) =~= totals_in(a) + totals_in(b));
    }
}

// ---------------------------------------------------------------------------
// What is accepted
// ---------------------------------------------------------------------------

/// A table is accepted exactly when it has at least ten rows, its ranks count
/// its rows from one, no player stands in it twice, no row has more points than
/// the row above it, and every announced qualifier stands in it.
pub proof fn what_is_accepted(rows: Seq<RowModel>, qualifiers: Seq<QualifierModel>)
    requires
        rows.len() <= u32::MAX,
    ensures
        problems_in(rows, qualifiers).len() == 0 <==> {
            &&& rows.len() >= 10
            &&& forall|i: int| 0 <= i < rows.len() ==> (#[trigger] rows[i]).rank == i + 1
            &&& forall|i: int, j: int|
                0 <= i < j < rows.len() ==> (#[trigger] rows[i]).player_code != (
                #[trigger] rows[j]).player_code
            &&& forall|i: int, j: int|
                0 <= i < j < rows.len() ==> (#[trigger] rows[i]).race_points >= (
                #[trigger] rows[j]).race_points
            &&& forall|q: int|
                0 <= q < qualifiers.len() ==> exists|i: int|
                    0 <= i < rows.len() && (#[trigger] rows[i]).player_code == (
                    #[trigger] qualifiers[q]).player_code
        },
{
    valid_means_sound(rows, qualifiers);
    if sound(rows, qualifiers) {
        assert forall|q: int| 0 <= q < qualifiers.len() implies exists|i: int|
            0 <= i < rows.len() && (#[trigger] rows[i]).player_code == (
            #[trigger] qualifiers[q]).player_code by {
            assert(crate::qualification::has_code(rows, qualifiers[q].player_code));
        }
    }
}

} // verus!
