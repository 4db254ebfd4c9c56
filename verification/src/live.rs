//! How the live race page reads, said of the texts of its cells, and what makes
//! its table acceptable.

use vstd::prelude::*;

use crate::calendar::Timestamp;
use crate::parser::{
    alphanumeric, code_in, filled_parts, index_from, is_separator, judged, line_of, lines_in,
    live_problems, movement_of, optional_points, points_of, ungrouped, valid_means_live_sound,
    CellsModel, HrefErrorModel, LiveErrorModel, LiveRowModel, RowErrorModel, Stamp,
};
use crate::reading::{
    bare_text_is_kept, blank, cut_behind, free_of, in_any_case, lacks, padding_is_trimmed,
    same_letter,
};
use crate::text::{
    decimal, decimal_int, decimals_read_back, has, is_digit, is_letter, is_upper, lower_char,
    lowered, number, split_on, trimmed, unsigned,
};

verus! {

// ---------------------------------------------------------------------------
// Values
// ---------------------------------------------------------------------------

/// Points are digits, with commas or narrow spaces anywhere between them and
/// nothing else; what is read is the number that the digits write.
pub proof fn points_are_digits_and_separators(text: Seq<char>)
    ensures
        points_of(text) is Some ==> {
            &&& forall|i: int|
                0 <= i < text.len() ==> is_digit(#[trigger] text[i]) || text[i] == ',' || text[i]
                    == '\u{202f}'
            &&& exists|i: int| 0 <= i < text.len() && is_digit(#[trigger] text[i])
            &&& points_of(text) == Some(
                number(text.filter(|c: char| c != ',' && c != '\u{202f}')),
            )
        },
        (forall|i: int|
            0 <= i < text.len() ==> is_digit(#[trigger] text[i]) || text[i] == ',' || text[i]
                == '\u{202f}') && (exists|i: int| 0 <= i < text.len() && is_digit(
            #[trigger] text[i],
        )) && number(text.filter(|c: char| c != ',' && c != '\u{202f}')) <= u32::MAX ==> points_of(
            text,
        ) is Some,
{
    let keep = |c: char| c != ',' && c != '\u{202f}';
    let drop = |c: char| !is_separator(c);
    assert(keep =~= drop);
    let left = ungrouped(text);
    assert(left == text.filter(keep));
    assert forall|i: int| 0 <= i < text.len() && keep(text[i]) implies left.contains(
        #[trigger] text[i],
    ) by {
        kept(text, keep, i);
    }
    assert forall|j: int| 0 <= j < left.len() implies keep(#[trigger] left[j]) && text.contains(
        left[j],
    ) by {
        came_from(text, keep, j);
    }
    if points_of(text) is Some {
        assert forall|i: int| 0 <= i < text.len() implies is_digit(#[trigger] text[i]) || text[i]
            == ',' || text[i] == '\u{202f}' by {
            if keep(text[i]) {
                assert(left.contains(text[i]));
                let j = left.index_of(text[i]);
                assert(is_digit(left[j]));
            }
        }
        assert(text.contains(left[0]));
        let i = text.index_of(left[0]);
        assert(is_digit(left[0]));
        assert(is_digit(text[i]));
    }
    if (forall|i: int|
        0 <= i < text.len() ==> is_digit(#[trigger] text[i]) || text[i] == ',' || text[i]
            == '\u{202f}') && (exists|i: int| 0 <= i < text.len() && is_digit(#[trigger] text[i])) {
        let i = choose|i: int| 0 <= i < text.len() && is_digit(#[trigger] text[i]);
        assert(left.contains(text[i]));
        assert forall|j: int| 0 <= j < left.len() implies is_digit(#[trigger] left[j]) by {
            assert(text.contains(left[j]));
            let k = text.index_of(left[j]);
            assert(is_digit(text[k]) || text[k] == ',' || text[k] == '\u{202f}');
        }
    }
}

proof fn kept(s: Seq<char>, keep: spec_fn(char) -> bool, i: int)
    requires
        0 <= i < s.len(),
        keep(s[i]),
    ensures
        s.filter(keep).contains(s[i]),
    decreases s.len(),
{
    reveal(Seq::filter);
    let less = s.drop_last();
    let f = s.filter(keep);
    if i < less.len() {
        assert(less[i] == s[i]);
        kept(less, keep, i);
        let k = less.filter(keep).index_of(s[i]);
        assert(f[k] == s[i]);
    } else {
        assert(f[f.len() - 1] == s[i]);
    }
}

proof fn came_from(s: Seq<char>, keep: spec_fn(char) -> bool, j: int)
    requires
        0 <= j < s.filter(keep).len(),
    ensures
        keep(s.filter(keep)[j]),
        s.contains(s.filter(keep)[j]),
    decreases s.len(),
{
    reveal(Seq::filter);
    let less = s.drop_last();
    if j < less.filter(keep).len() {
        came_from(less, keep, j);
        let k = less.index_of(less.filter(keep)[j]);
        assert(s[k] == less[k]);
    } else {
        assert(s[s.len() - 1] == s.last());
    }
}

/// What shows nothing, with white space around it or not: an empty cell or a
/// dash of any of three lengths.
pub open spec fn shows_nothing(text: Seq<char>) -> bool {
    trimmed(text).len() == 0 || trimmed(text) == "-"@ || trimmed(text) == "–"@ || trimmed(text)
        == "—"@
}

/// A cell that shows nothing has no points; any other has those that its text
/// states, or none that can be read.
pub proof fn optional_points_are_read(text: Seq<char>)
    ensures
        optional_points(None) == Ok::<Option<u32>, RowErrorModel>(None),
        shows_nothing(text) ==> optional_points(Some(text)) == Ok::<Option<u32>, RowErrorModel>(
            None,
        ),
        !shows_nothing(text) ==> match points_of(trimmed(text)) {
            Some(n) => optional_points(Some(text)) == Ok::<Option<u32>, RowErrorModel>(
                Some(n as u32),
            ),
            None => optional_points(Some(text)) == Err::<Option<u32>, RowErrorModel>(
                RowErrorModel::BadPoints { text: trimmed(text) },
            ),
        },
{
    reveal_strlit("");
    if trimmed(text).len() == 0 {
        assert(trimmed(text) =~= ""@);
    }
}

/// A movement reads back from the way a number is written, with a plus in front
/// or not and white space around it; a cell that shows nothing has none.
pub proof fn movements_read_back(m: i32, x: Seq<char>, y: Seq<char>, text: Seq<char>)
    requires
        blank(x),
        blank(y),
    ensures
        movement_of(Some(x + decimal_int(m as int) + y)) == Some(m),
        m >= 0 ==> movement_of(Some(x + (seq!['+'] + decimal(m as nat)) + y)) == Some(m),
        movement_of(None) is None,
        shows_nothing(text) ==> movement_of(Some(text)) is None,
{
    reveal_strlit("");
    reveal_strlit("-");
    reveal_strlit("–");
    reveal_strlit("—");
    let size = (if m < 0 {
        -m
    } else {
        m as int
    }) as nat;
    let d = decimal(size);
    decimals_read_back(size);
    assert(is_digit(d[0]));
    assert(is_digit(d[d.len() - 1]));
    let t = decimal_int(m as int);
    padding_is_trimmed(x, t, y);
    if m < 0 {
        assert(t[0] == '-');
        assert(t.last() == d.last());
        bare_text_is_kept(t);
        assert(t.len() >= 2);
        assert(t.subrange(1, t.len() as int) =~= d);
    } else {
        bare_text_is_kept(t);
        assert(t != "-"@ && t != "–"@ && t != "—"@) by {
            assert("-"@[0] == '-' && "–"@[0] == '–' && "—"@[0] == '—');
        }
        let p = seq!['+'] + d;
        padding_is_trimmed(x, p, y);
        assert(p[0] == '+');
        assert(p.last() == d.last());
        bare_text_is_kept(p);
        assert(p.subrange(1, p.len() as int) =~= d);
    }
    if trimmed(text).len() == 0 {
        assert(trimmed(text) =~= ""@);
    }
}

/// A profile link names its player by the second segment behind `players`, in
/// lower case, whatever follows it.
pub proof fn profile_links_name_a_code(
    language: Seq<char>,
    slug: Seq<char>,
    code: Seq<char>,
    rest: Seq<char>,
)
    requires
        language.len() > 0 && free_of(language, '/') && language != "players"@,
        slug.len() > 0 && free_of(slug, '/'),
        code.len() > 0,
        forall|i: int| 0 <= i < code.len() ==> is_letter(#[trigger] code[i]) || is_digit(code[i]),
        rest.len() > 0 ==> rest[0] == '/',
    ensures
        code_in("/"@ + language + "/players/"@ + slug + "/"@ + code + rest) matches Ok(c) && {
            &&& in_any_case(c, code)
            &&& forall|i: int| 0 <= i < c.len() ==> !('A' <= #[trigger] c[i] <= 'Z')
        },
{
    reveal_strlit("/");
    reveal_strlit("/players/");
    reveal_strlit("players");
    let sep = "/"@;
    let word = "players"@;
    let href = sep + language + "/players/"@ + slug + sep + code + rest;
    let none = Seq::<char>::empty();
    let t4 = code + rest;
    let t3 = slug + sep + t4;
    let t2 = word + sep + t3;
    let t1 = language + sep + t2;
    assert(href =~= none + sep + t1);
    cut_behind(none, sep, t1);
    cut_behind(language, sep, t2);
    assert(free_of(word, '/'));
    cut_behind(word, sep, t3);
    cut_behind(slug, sep, t4);
    assert forall|i: int| 0 <= i < code.len() implies #[trigger] code[i] != '/' by {
        assert(is_letter(code[i]) || is_digit(code[i]));
    }
    let tail = split_on(t4, sep);
    let more = if rest.len() > 0 {
        let r = rest.subrange(1, rest.len() as int);
        assert(t4 =~= code + sep + r);
        cut_behind(code, sep, r);
        split_on(r, sep)
    } else {
        assert(t4 =~= code);
        lacks(code, sep, 0);
        seq![]
    };
    assert(tail =~= seq![code] + more);
    let parts = split_on(href, sep);
    assert(split_on(t3, sep) == seq![slug] + tail);
    assert(split_on(t2, sep) == seq![word] + split_on(t3, sep));
    assert(split_on(t1, sep) == seq![language] + split_on(t2, sep));
    assert(parts == seq![none] + split_on(t1, sep));
    let known = seq![none, language, word, slug, code];
    assert(parts =~= known + more);
    segments_are_filled(language, word, slug, code, more);
    let segments = filled_parts(parts);
    assert(segments.len() >= 4);
    assert(segments[0] == language && segments[1] == word && segments[2] == slug && segments[3]
        == code);
    assert(index_from(segments, word, 1) == Some(1int));
    assert(index_from(segments, word, 0) == Some(1int));
    assert(alphanumeric(code));
    lower_case_is_the_same_letters(code);
}

proof fn lower_case_is_the_same_letters(s: Seq<char>)
    ensures
        in_any_case(lowered(s), s),
        forall|i: int| 0 <= i < lowered(s).len() ==> !('A' <= #[trigger] lowered(s)[i] <= 'Z'),
{
    let l = lowered(s);
    assert forall|i: int| 0 <= i < s.len() implies same_letter(#[trigger] l[i], s[i]) && !('A'
        <= l[i] <= 'Z') by {
        small_of(s[i]);
        assert(l[i] == lower_char(s[i]));
    }
}

proof fn small_of(c: char)
    ensures
        same_letter(lower_char(c), c),
        !('A' <= lower_char(c) <= 'Z'),
{
    let x = c as u32;
    if is_upper(c) {
        assert(lower_char(c) as u32 == x + 32);
    }
}

proof fn segments_are_filled(
    a: Seq<char>,
    b: Seq<char>,
    c: Seq<char>,
    d: Seq<char>,
    more: Seq<Seq<char>>,
)
    requires
        a.len() > 0 && b.len() > 0 && c.len() > 0 && d.len() > 0,
    ensures
        filled_parts(seq![Seq::<char>::empty(), a, b, c, d] + more) == seq![a, b, c, d]
            + filled_parts(more),
    decreases more.len(),
{
    let keep = |p: Seq<char>| p.len() > 0;
    let known = seq![Seq::<char>::empty(), a, b, c, d];
    if more.len() == 0 {
        assert(known + more =~= known);
        let none = Seq::<Seq<char>>::empty();
        assert(none.filter(keep) =~= none) by {
            reveal(Seq::filter);
        }
        none.lemma_filter_push(Seq::<char>::empty(), keep);
        let k1 = none.push(Seq::<char>::empty());
        k1.lemma_filter_push(a, keep);
        k1.push(a).lemma_filter_push(b, keep);
        k1.push(a).push(b).lemma_filter_push(c, keep);
        k1.push(a).push(b).push(c).lemma_filter_push(d, keep);
        assert(known =~= k1.push(a).push(b).push(c).push(d));
        assert(more =~= none);
        assert(known.filter(keep) =~= seq![a, b, c, d]);
        assert(seq![a, b, c, d] + filled_parts(more) =~= seq![a, b, c, d]);
    } else {
        let less = more.drop_last();
        segments_are_filled(a, b, c, d, less);
        assert(known + more =~= (known + less).push(more.last()));
        assert(more =~= less.push(more.last()));
        (known + less).lemma_filter_push(more.last(), keep);
        less.lemma_filter_push(more.last(), keep);
        assert(filled_parts(known + more) =~= seq![a, b, c, d] + filled_parts(more));
    }
}

// ---------------------------------------------------------------------------
// A row
// ---------------------------------------------------------------------------

/// A row that is read says what its cells say, each text without the white space
/// around it: the rank, the player by name and by the code that the link leads
/// to, the country, the points, the movement, the event with its round, and the
/// points to come. It gives a reason exactly when there is neither an event nor
/// both numbers to come: what stands in place of the event, and in general terms
/// where nothing does.
pub proof fn a_row_says_what_its_cells_say(cells: CellsModel)
    ensures
        line_of(cells) matches Ok(row) ==> {
            &&& cells.rank matches Some(f) && unsigned(trimmed(f.text), u32::MAX as nat) == Some(
                row.rank as nat,
            )
            &&& cells.player matches Some(f) && row.player_name == trimmed(f.text)
                && row.player_name.len() > 0 && (f.attribute matches Some(href) && code_in(href)
                == Ok::<Seq<char>, HrefErrorModel>(row.player_code))
            &&& cells.points matches Some(f) && points_of(trimmed(f.text)) == Some(
                row.live_points as nat,
            )
            &&& cells.country matches Some(f) ==> row.country == trimmed(f.text)
            &&& cells.country is None ==> row.country.len() == 0
            &&& cells.movement matches Some(f) ==> row.movement == movement_of(
                Some(trimmed(f.text)),
            )
            &&& cells.movement is None ==> row.movement is None
            &&& cells.event matches Some(f) ==> (row.event matches Some(e) && e.name == trimmed(
                f.text,
            ) && (cells.round matches Some(r) ==> e.round == trimmed(r.text)) && (
            cells.round is None ==> e.round.len() == 0))
            &&& cells.event is None ==> row.event is None
            &&& cells.next matches Some(f) ==> optional_points(Some(trimmed(f.text))) == Ok::<
                Option<u32>,
                RowErrorModel,
            >(row.next_points)
            &&& cells.next is None ==> row.next_points is None
            &&& cells.max matches Some(f) ==> optional_points(Some(trimmed(f.text))) == Ok::<
                Option<u32>,
                RowErrorModel,
            >(row.max_this_week)
            &&& cells.max is None ==> row.max_this_week is None
            &&& row.unavailable_reason is Some <==> row.event is None && !(
            row.next_points is Some && row.max_this_week is Some)
            &&& row.unavailable_reason matches Some(reason) ==> {
                let place = match cells.idle {
                    Some(f) => Some(f),
                    None => cells.tournament,
                };
                &&& place is None ==> reason == "not playing this week"@
                &&& place matches Some(f) ==> {
                    let t = trimmed(f.text);
                    if t.len() == 0 || t == "-"@ || t == "–"@ || t == "—"@ {
                        reason == "not playing this week"@
                    } else {
                        reason == t
                    }
                }
            }
        },
{
    reveal_strlit("");
    if let Some(f) = cells.idle {
        if trimmed(f.text).len() == 0 {
            assert(trimmed(f.text) =~= ""@);
        }
    }
    if let Some(f) = cells.tournament {
        if trimmed(f.text).len() == 0 {
            assert(trimmed(f.text) =~= ""@);
        }
    }
}

/// A row is not read exactly when its rank, its player or its points are missing
/// or cannot be read, or its points to come cannot be; the first of these is
/// what is said.
pub proof fn what_makes_a_row_unreadable(cells: CellsModel)
    ensures
        ({
            let rank = match cells.rank {
                None => Some(RowErrorModel::RankMissing),
                Some(f) => if unsigned(trimmed(f.text), u32::MAX as nat) is None {
                    Some(RowErrorModel::BadRank)
                } else {
                    None
                },
            };
            let player = match cells.player {
                None => Some(RowErrorModel::PlayerLinkMissing),
                Some(f) => if trimmed(f.text).len() == 0 {
                    Some(RowErrorModel::NameEmpty)
                } else {
                    match f.attribute {
                        None => Some(RowErrorModel::NoHref),
                        Some(href) => match code_in(href) {
                            Err(cause) => Some(RowErrorModel::BadHref { href, cause }),
                            Ok(_) => None,
                        },
                    }
                },
            };
            let points = match cells.points {
                None => Some(RowErrorModel::PointsMissing),
                Some(f) => if points_of(trimmed(f.text)) is None {
                    Some(RowErrorModel::BadPoints { text: trimmed(f.text) })
                } else {
                    None
                },
            };
            &&& rank matches Some(e) ==> line_of(cells) == Err::<LiveRowModel, RowErrorModel>(e)
            &&& rank is None ==> (player matches Some(e) ==> line_of(cells) == Err::<
                LiveRowModel,
                RowErrorModel,
            >(e))
            &&& rank is None && player is None ==> (points matches Some(e) ==> line_of(cells)
                == Err::<LiveRowModel, RowErrorModel>(e))
            &&& rank is None && player is None && points is None ==> {
                let next = optional_points(
                    match cells.next {
                        Some(f) => Some(trimmed(f.text)),
                        None => None,
                    },
                );
                let max = optional_points(
                    match cells.max {
                        Some(f) => Some(trimmed(f.text)),
                        None => None,
                    },
                );
                &&& next matches Err(e) ==> line_of(cells) == Err::<LiveRowModel, RowErrorModel>(e)
                &&& next is Ok ==> (max matches Err(e) ==> line_of(cells) == Err::<
                    LiveRowModel,
                    RowErrorModel,
                >(e))
                &&& next is Ok && max is Ok ==> line_of(cells) is Ok
            }
        }),
{
}

proof fn lines_follow_rows(rows: Seq<CellsModel>)
    ensures
        lines_in(rows) matches Ok(lines) ==> lines.len() == rows.len() && forall|i: int|
            0 <= i < rows.len() ==> line_of(#[trigger] rows[i]) == Ok::<
                LiveRowModel,
                RowErrorModel,
            >(lines[i]),
        lines_in(rows) matches Err(e) ==> exists|i: int|
            0 <= i < rows.len() && (line_of(#[trigger] rows[i]) matches Err(cause) && e == (
            LiveErrorModel::Row { number: (i + 1) as nat, cause })) && forall|k: int|
                0 <= k < i ==> line_of(#[trigger] rows[k]) is Ok,
    decreases rows.len(),
{
    if rows.len() > 0 {
        let front = rows.drop_last();
        lines_follow_rows(front);
        assert forall|i: int| 0 <= i < front.len() implies #[trigger] front[i] == rows[i] by {}
        match lines_in(front) {
            Ok(lines) => {
                let n = rows.len() - 1;
                assert(rows[n] == rows.last());
                assert forall|k: int| 0 <= k < n implies line_of(#[trigger] rows[k]) is Ok by {
                    assert(front[k] == rows[k]);
                }
                if let Ok(all) = lines_in(rows) {
                    assert forall|i: int| 0 <= i < rows.len() implies line_of(#[trigger] rows[i])
                        == Ok::<LiveRowModel, RowErrorModel>(all[i]) by {
                        if i < n {
                            assert(front[i] == rows[i]);
                            assert(all[i] == lines[i]);
                        }
                    }
                }
            },
            Err(e) => {
                let i = choose|i: int|
                    0 <= i < front.len() && (line_of(#[trigger] front[i]) matches Err(cause) && e
                        == (LiveErrorModel::Row { number: (i + 1) as nat, cause })) && forall|k: int|
                        0 <= k < i ==> line_of(#[trigger] front[k]) is Ok;
                assert(rows[i] == front[i]);
                assert forall|k: int| 0 <= k < i implies line_of(#[trigger] rows[k]) is Ok by {
                    assert(front[k] == rows[k]);
                }
            },
        }
    }
}

/// The rows of a page are read in order, one line each, or the first that cannot
/// be read is named by its number, counted from one.
pub proof fn rows_are_read_in_order(rows: Seq<CellsModel>)
    ensures
        lines_in(rows) matches Ok(lines) ==> lines.len() == rows.len() && forall|i: int|
            0 <= i < rows.len() ==> line_of(#[trigger] rows[i]) == Ok::<
                LiveRowModel,
                RowErrorModel,
            >(lines[i]),
        lines_in(rows) matches Err(e) ==> exists|i: int|
            0 <= i < rows.len() && (line_of(#[trigger] rows[i]) matches Err(cause) && e == (
            LiveErrorModel::Row { number: (i + 1) as nat, cause })) && forall|k: int|
                0 <= k < i ==> line_of(#[trigger] rows[k]) is Ok,
{
    lines_follow_rows(rows);
}

// ---------------------------------------------------------------------------
// What is accepted
// ---------------------------------------------------------------------------

/// A live table is accepted exactly when it has at least eight rows, its ranks count its rows from one, no player stands in it twice,
/// no row has more points than the row above it, and no row projects fewer
/// points after its next match than it has, or fewer at most than after that
/// match.
pub proof fn what_is_accepted_live(rows: Seq<LiveRowModel>)
    requires
        rows.len() <= u32::MAX,
    ensures
        live_problems(rows).len() == 0 <==> {
            &&& rows.len() >= 8
            &&& forall|i: int| 0 <= i < rows.len() ==> (#[trigger] rows[i]).rank == i + 1
            &&& forall|i: int, j: int|
                0 <= i < j < rows.len() ==> (#[trigger] rows[i]).player_code != (
                #[trigger] rows[j]).player_code
            &&& forall|i: int, j: int|
                0 <= i < j < rows.len() ==> (#[trigger] rows[i]).live_points >= (
                #[trigger] rows[j]).live_points
            &&& forall|i: int|
                0 <= i < rows.len() ==> ((#[trigger] rows[i]).next_points matches Some(next)
                    ==> next >= rows[i].live_points && (rows[i].max_this_week matches Some(max)
                    ==> max >= next))
        },
{
    valid_means_live_sound(rows);
}

/// A page gives a snapshot with its own moment, its rows and the label and the
/// moment it was read with; a page without the heading, without a moment or with
/// an unreadable one gives that reason first.
pub proof fn a_page_is_judged_in_order(
    headings: Seq<Seq<char>>,
    stamp: Stamp,
    cells: Seq<CellsModel>,
    label: Seq<char>,
    now: Timestamp,
)
    ensures
        ({
            let headed = exists|i: int|
                0 <= i < headings.len() && has(#[trigger] headings[i], "race to turin"@);
            let r = judged(headings, stamp, cells, label, now);
            &&& !headed ==> (r matches Err(e) && e == LiveErrorModel::NoHeading)
            &&& headed && stamp == Stamp::Missing ==> (r matches Err(e) && e
                == LiveErrorModel::NoTimestamp)
            &&& headed && stamp == Stamp::Unreadable ==> (r matches Err(e) && e
                == LiveErrorModel::BadTimestamp)
            &&& r matches Ok(s) ==> stamp == Stamp::At(s.source_as_of) && s.generated_at == now
                && s.source == label && lines_in(cells) == Ok::<Seq<LiveRowModel>, LiveErrorModel>(
                s.rows,
            )
        }),
{
}

} // verus!
