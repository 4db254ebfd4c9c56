//! How what is written in an article reads: for each piece of markup, what the
//! parser makes of it, said of the characters that are written.

use vstd::prelude::*;

use crate::calendar::{month_name, valid_date, CalendarDate, Timestamp};
use crate::display::commas_stand_before_every_third_digit;
use crate::parser::ungrouped;
use crate::source::{
    as_of_in, as_of_parts, attribute, cells_in, dts_in, flag_in, int_in, is_grouped_number, line_cells,
    link_inner, link_label, link_target, month_of, outside_tags, plain, qualifier_in,
    qualifiers_in, qualifiers_of, shown_name, tag_depth, total_in_line, url_in, url_len,
    without_comments, ErrorModel,
};
use crate::text::{
    all_digits, all_letters, before, begins, cut, decimal, decimals_read_back, digits_in,
    first_position_is_found, has, is_digit, is_letter, is_lower, is_space, is_upper,
    leading_digits, lines_of, lower_char, lowered, occurs_at, position_from_is_first, position_of,
    raised, replaced, split_on, stripped, trimmed, trimmed_end, trimmed_start, unled, unsigned,
    upper_char, without_cr, word_len, words_of,
};
use crate::web::{displayed_points_read_back, grouped};

verus! {

// ---------------------------------------------------------------------------
// Finding what was written
// ---------------------------------------------------------------------------

/// No character of `s` is `c`.
pub open spec fn free_of(s: Seq<char>, c: char) -> bool {
    forall|i: int| 0 <= i < s.len() ==> #[trigger] s[i] != c
}

/// Every character of `s` is white space.
pub open spec fn blank(s: Seq<char>) -> bool {
    forall|i: int| 0 <= i < s.len() ==> is_space(#[trigger] s[i])
}

/// Where the front holds no character that `pat` begins with, `pat` is found
/// behind it.
pub proof fn cut_behind(a: Seq<char>, pat: Seq<char>, b: Seq<char>)
    requires
        pat.len() > 0,
        free_of(a, pat[0]),
    ensures
        position_of(a + pat + b, pat) == Some(a.len() as int),
        cut(a + pat + b, pat) == Some((a, b)),
{
    let s = a + pat + b;
    let n = a.len() as int;
    assert(s.subrange(n, n + pat.len()) =~= pat);
    assert forall|j: int| 0 <= j < n implies !occurs_at(s, pat, j) by {
        if occurs_at(s, pat, j) {
            assert(s.subrange(j, j + pat.len())[0] == s[j]);
            assert(s[j] == a[j]);
        }
    }
    first_position_is_found(s, pat, n);
    assert(s.subrange(0, n) =~= a);
    assert(s.subrange(n + pat.len(), s.len() as int) =~= b);
}

/// Where the front does not hold `pat`, and `pat` begins with a character that
/// it does not repeat, `pat` is found behind the front.
pub proof fn cut_behind_whole(a: Seq<char>, pat: Seq<char>, b: Seq<char>)
    requires
        pat.len() > 0,
        forall|q: int| 1 <= q < pat.len() ==> #[trigger] pat[q] != pat[0],
        !(has(a, pat)),
    ensures
        position_of(a + pat + b, pat) == Some(a.len() as int),
        cut(a + pat + b, pat) == Some((a, b)),
{
    let s = a + pat + b;
    let n = a.len() as int;
    let k = pat.len() as int;
    position_from_is_first(a, pat, 0);
    assert(s.subrange(n, n + k) =~= pat);
    assert forall|j: int| 0 <= j < n implies !occurs_at(s, pat, j) by {
        if occurs_at(s, pat, j) {
            let w = s.subrange(j, j + k);
            if j + k <= n {
                assert(w =~= a.subrange(j, j + k));
                assert(occurs_at(a, pat, j));
            } else {
                assert(w[n - j] == s[n]);
                assert(s[n] == pat[0]);
                assert(w[n - j] == pat[n - j]);
            }
        }
    }
    first_position_is_found(s, pat, n);
    assert(s.subrange(0, n) =~= a);
    assert(s.subrange(n + k, s.len() as int) =~= b);
}

/// A text without one of the characters of `pat` does not hold `pat`.
pub proof fn lacks(s: Seq<char>, pat: Seq<char>, q: int)
    requires
        0 <= q < pat.len(),
        free_of(s, pat[q]),
    ensures
        position_of(s, pat) is None,
        !(has(s, pat)),
        cut(s, pat) is None,
        !(occurs_at(s, pat, 0)),
{
    position_from_is_first(s, pat, 0);
    if occurs_at(s, pat, 0) {
        assert(s.subrange(0, pat.len() as int)[q] == s[q]);
    }
    if let Some(j) = position_of(s, pat) {
        assert(s.subrange(j, j + pat.len())[q] == s[j + q]);
    }
}

/// What stands in a text is held by it.
pub proof fn holds(s: Seq<char>, pat: Seq<char>, i: int)
    requires
        occurs_at(s, pat, i),
    ensures
        has(s, pat),
{
    position_from_is_first(s, pat, 0);
}

/// A separator that the text does not hold leaves it in one piece.
pub proof fn one_piece(s: Seq<char>, sep: Seq<char>)
    requires
        !(has(s, sep)),
    ensures
        split_on(s, sep) == seq![s],
{
}

// ---------------------------------------------------------------------------
// Trimming
// ---------------------------------------------------------------------------

proof fn start_of_blank(s: Seq<char>)
    requires
        blank(s),
    ensures
        trimmed_start(s).len() == 0,
    decreases s.len(),
{
    if s.len() > 0 {
        let rest = s.subrange(1, s.len() as int);
        assert forall|i: int| 0 <= i < rest.len() implies is_space(#[trigger] rest[i]) by {
            assert(rest[i] == s[i + 1]);
        }
        start_of_blank(rest);
    }
}

pub proof fn start_after_blank(x: Seq<char>, s: Seq<char>)
    requires
        blank(x),
    ensures
        trimmed_start(x + s) == trimmed_start(s),
    decreases x.len(),
{
    if x.len() == 0 {
        assert(x + s =~= s);
    } else {
        let rest = x.subrange(1, x.len() as int);
        assert forall|i: int| 0 <= i < rest.len() implies is_space(#[trigger] rest[i]) by {
            assert(rest[i] == x[i + 1]);
        }
        start_after_blank(rest, s);
        assert((x + s)[0] == x[0]);
        assert((x + s).subrange(1, (x + s).len() as int) =~= rest + s);
    }
}

proof fn end_before_blank(s: Seq<char>, y: Seq<char>)
    requires
        blank(y),
    ensures
        trimmed_end(s + y) == trimmed_end(s),
    decreases y.len(),
{
    if y.len() == 0 {
        assert(s + y =~= s);
    } else {
        let rest = y.subrange(0, y.len() - 1);
        assert forall|i: int| 0 <= i < rest.len() implies is_space(#[trigger] rest[i]) by {
            assert(rest[i] == y[i]);
        }
        end_before_blank(s, rest);
        assert((s + y).last() == y.last());
        assert(y.last() == y[y.len() - 1]);
        assert((s + y).subrange(0, (s + y).len() - 1) =~= s + rest);
    }
}

/// What follows a character that is no white space is trimmed on its own.
pub proof fn end_behind(p: Seq<char>, w: Seq<char>)
    requires
        p.len() > 0,
        !is_space(p.last()),
    ensures
        trimmed_end(p + w) == p + trimmed_end(w),
    decreases w.len(),
{
    if w.len() == 0 {
        assert(p + w =~= p);
        assert(p + trimmed_end(w) =~= p);
    } else if is_space(w.last()) {
        end_behind(p, w.subrange(0, w.len() - 1));
        assert((p + w).last() == w.last());
        assert((p + w).subrange(0, (p + w).len() - 1) =~= p + w.subrange(0, w.len() - 1));
    } else {
        assert((p + w).last() == w.last());
    }
}

/// What is trimmed from the end is white space.
pub proof fn end_splits(w: Seq<char>) -> (y: Seq<char>)
    ensures
        w == trimmed_end(w) + y,
        blank(y),
    decreases w.len(),
{
    if w.len() > 0 && is_space(w.last()) {
        let less = w.subrange(0, w.len() - 1);
        let y = end_splits(less);
        let longer = y.push(w.last());
        assert(w =~= less.push(w.last()));
        assert(w =~= trimmed_end(w) + longer);
        longer
    } else {
        assert(w =~= trimmed_end(w) + seq![]);
        seq![]
    }
}

/// What is trimmed from the start is white space.
proof fn start_splits(w: Seq<char>) -> (x: Seq<char>)
    ensures
        w == x + trimmed_start(w),
        blank(x),
    decreases w.len(),
{
    if w.len() > 0 && is_space(w[0]) {
        let less = w.subrange(1, w.len() as int);
        let x = start_splits(less);
        let longer = seq![w[0]] + x;
        assert(w =~= seq![w[0]] + less);
        assert(w =~= longer + trimmed_start(w));
        longer
    } else {
        assert(w =~= seq![] + trimmed_start(w));
        seq![]
    }
}

proof fn start_before(s: Seq<char>, y: Seq<char>)
    requires
        blank(y),
    ensures
        trimmed_start(s).len() > 0 ==> trimmed_start(s + y) == trimmed_start(s) + y,
        trimmed_start(s).len() == 0 ==> trimmed_start(s + y).len() == 0,
    decreases s.len(),
{
    if s.len() == 0 {
        assert(s + y =~= y);
        start_of_blank(y);
    } else if is_space(s[0]) {
        let rest = s.subrange(1, s.len() as int);
        start_before(rest, y);
        assert((s + y)[0] == s[0]);
        assert((s + y).subrange(1, (s + y).len() as int) =~= rest + y);
    } else {
        assert((s + y)[0] == s[0]);
    }
}

/// White space around a text is trimmed away.
pub proof fn padding_is_trimmed(x: Seq<char>, s: Seq<char>, y: Seq<char>)
    requires
        blank(x),
        blank(y),
    ensures
        trimmed(x + s + y) == trimmed(s),
{
    assert(x + s + y =~= x + (s + y));
    start_after_blank(x, s + y);
    start_before(s, y);
    if trimmed_start(s).len() > 0 {
        end_before_blank(trimmed_start(s), y);
    }
}

/// A text that neither begins nor ends with white space is left as it is.
pub proof fn bare_text_is_kept(s: Seq<char>)
    requires
        s.len() > 0 ==> !is_space(s[0]) && !is_space(s.last()),
    ensures
        trimmed(s) == s,
{
}

/// Trimming takes white space from both ends and nothing else, and leaves none
/// there.
pub proof fn trimming_takes_only_the_ends(s: Seq<char>) -> (r: (Seq<char>, Seq<char>))
    ensures
        s == r.0 + trimmed(s) + r.1,
        blank(r.0),
        blank(r.1),
        trimmed(s).len() > 0 ==> !is_space(trimmed(s)[0]) && !is_space(trimmed(s).last()),
{
    let x = start_splits(s);
    let y = end_splits(trimmed_start(s));
    assert(s =~= x + trimmed(s) + y);
    let t = trimmed_start(s);
    start_is_bare(s);
    end_is_bare(t);
    if trimmed(s).len() > 0 {
        assert(trimmed(s)[0] == t[0]);
    }
    (x, y)
}

proof fn start_is_bare(s: Seq<char>)
    ensures
        trimmed_start(s).len() > 0 ==> !is_space(trimmed_start(s)[0]),
    decreases s.len(),
{
    if s.len() > 0 && is_space(s[0]) {
        start_is_bare(s.subrange(1, s.len() as int));
    }
}

proof fn end_is_bare(s: Seq<char>)
    ensures
        trimmed_end(s).len() > 0 ==> !is_space(trimmed_end(s).last()),
        trimmed_end(s).len() <= s.len(),
        trimmed_end(s) == s.take(trimmed_end(s).len() as int),
    decreases s.len(),
{
    if s.len() > 0 && is_space(s.last()) {
        let less = s.subrange(0, s.len() - 1);
        end_is_bare(less);
        assert(s.take(trimmed_end(s).len() as int) =~= less.take(trimmed_end(s).len() as int));
    } else {
        assert(s.take(s.len() as int) =~= s);
    }
}

pub proof fn blank_is_trimmed_away(s: Seq<char>)
    requires
        blank(s),
    ensures
        trimmed(s).len() == 0,
{
    start_of_blank(s);
}

// ---------------------------------------------------------------------------
// Lines and cells
// ---------------------------------------------------------------------------

/// A text without a line feed is one line.
pub proof fn one_line(s: Seq<char>)
    requires
        s.len() > 0,
        free_of(s, '\n'),
    ensures
        lines_of(s) == seq![s],
{
    let nl = seq!['\n'];
    assert(nl[0] == '\n');
    lacks(s, nl, 0);
}

/// A line feed ends a line.
pub proof fn a_line_feed_ends_a_line(a: Seq<char>, b: Seq<char>)
    requires
        free_of(a, '\n'),
    ensures
        lines_of(a + seq!['\n'] + b) == seq![without_cr(a)] + lines_of(b),
{
    cut_behind(a, seq!['\n'], b);
}

/// A line ends with a line feed, in front of which a carriage return may stand;
/// neither is part of the line.
pub proof fn a_carriage_return_is_left_off(a: Seq<char>, b: Seq<char>)
    requires
        free_of(a, '\n'),
        free_of(a, '\r'),
    ensures
        lines_of(a + seq!['\n'] + b) == seq![a] + lines_of(b),
        lines_of(a + seq!['\r', '\n'] + b) == seq![a] + lines_of(b),
{
    a_line_feed_ends_a_line(a, b);
    if a.len() > 0 {
        assert(a[a.len() - 1] != '\r');
    }
    let c = a.push('\r');
    assert(a + seq!['\r', '\n'] + b =~= c + seq!['\n'] + b);
    a_line_feed_ends_a_line(c, b);
    assert(without_cr(c) =~= a);
}

/// The cell of a line that holds one.
proof fn single_cell(a: Seq<char>)
    requires
        !(has(a, "||"@)),
        a.len() > 0 ==> a[0] != '-' && a[0] != '}',
    ensures
        line_cells("| "@ + a) == seq![trimmed(a)],
{
    reveal_strlit("| ");
    reveal_strlit("|");
    reveal_strlit("||");
    reveal_strlit("-");
    reveal_strlit("}");
    let line = "| "@ + a;
    let bar = seq!['|'];
    let w = seq![' '] + a;
    assert(line =~= bar + w);
    assert(line[0] == '|');
    assert(trimmed_start(line) == line);
    end_behind(bar, w);
    let e = trimmed_end(w);
    let y = end_splits(w);
    let t = bar + e;
    assert(trimmed(line) == t);
    padding_is_trimmed(seq![' '], a, seq![]);
    assert(w + seq![] =~= w);
    assert(seq![' '] + a + seq![] =~= w);
    padding_is_trimmed(seq![], e, y);
    assert(seq![] + e + y =~= w);
    assert(trimmed(e) == trimmed(a));
    position_from_is_first(a, "||"@, 0);
    if e.len() == 0 {
        assert(t =~= bar);
        assert(!(begins(t, "| "@)));
        assert(t.subrange(0, 1) =~= "|"@);
        let rest = t.subrange(1, t.len() as int);
        assert(rest =~= seq![]);
        assert(stripped(t, "|"@) == Some(rest));
        lacks(rest, "||"@, 0);
        one_piece(rest, "||"@);
        assert(line_cells(line) =~= seq![trimmed(a)]);
    } else {
        let rest = e.subrange(1, e.len() as int);
        assert(w == e + y);
        assert(e[0] == w[0]);
        assert(t.subrange(0, 2) =~= "| "@);
        assert(t.subrange(2, t.len() as int) =~= rest);
        assert(stripped(t, "| "@) == Some(rest));
        assert forall|i: int| 0 <= i < rest.len() implies rest[i] == a[i] by {
            assert(rest[i] == e[i + 1]);
            assert(e[i + 1] == w[i + 1]);
        }
        if rest.len() > 0 {
            assert(rest.subrange(0, 1)[0] == rest[0]);
        }
        assert(!(begins(rest, "-"@)));
        assert(!(begins(rest, "}"@)));
        position_from_is_first(rest, "||"@, 0);
        if let Some(j) = position_of(rest, "||"@) {
            assert(rest.subrange(j, j + 2) =~= a.subrange(j, j + 2));
            assert(occurs_at(a, "||"@, j));
        }
        one_piece(rest, "||"@);
        assert(e =~= seq![' '] + rest + seq![]);
        padding_is_trimmed(seq![' '], rest, seq![]);
        assert(trimmed(rest) == trimmed(a));
        assert(line_cells(line) =~= seq![trimmed(a)]);
    }
}

/// The cells of a line that holds two, apart by a double pipe.
proof fn inline_cells(a: Seq<char>, b: Seq<char>)
    requires
        !(has(a, "||"@)),
        !(has(b, "||"@)),
        a.len() > 0 ==> a[0] != '-' && a[0] != '}',
    ensures
        line_cells("| "@ + a + " || "@ + b) == seq![trimmed(a), trimmed(b)],
{
    reveal_strlit("| ");
    reveal_strlit(" || ");
    reveal_strlit("||");
    reveal_strlit("-");
    reveal_strlit("}");
    let sep = "||"@;
    let line = "| "@ + a + " || "@ + b;
    let p = "| "@ + a + seq![' '] + sep;
    let w = seq![' '] + b;
    assert(line =~= p + w);
    assert(line[0] == '|');
    assert(trimmed_start(line) == line);
    assert(p.last() == '|');
    end_behind(p, w);
    let e = trimmed_end(w);
    let y = end_splits(w);
    let t = p + e;
    assert(trimmed(line) == t);
    let head = a + seq![' '];
    let rest = head + sep + e;
    assert(t.subrange(0, 2) =~= "| "@);
    assert(t.subrange(2, t.len() as int) =~= rest);
    assert(stripped(t, "| "@) == Some(rest));
    assert(rest.subrange(0, 1)[0] == rest[0]);
    if a.len() > 0 {
        assert(rest[0] == a[0]);
    } else {
        assert(rest[0] == ' ');
    }
    assert(!(begins(rest, "-"@)));
    assert(!(begins(rest, "}"@)));
    let n = head.len() as int;
    position_from_is_first(a, sep, 0);
    assert(rest.subrange(n, n + 2) =~= sep);
    assert forall|j: int| 0 <= j < n implies !occurs_at(rest, sep, j) by {
        if occurs_at(rest, sep, j) {
            let v = rest.subrange(j, j + 2);
            assert(v[0] == rest[j] && v[1] == rest[j + 1]);
            if j + 2 <= a.len() {
                assert(v =~= a.subrange(j, j + 2));
                assert(occurs_at(a, sep, j));
            } else if j + 1 == a.len() {
                assert(rest[j + 1] == ' ');
            } else {
                assert(rest[j] == ' ');
            }
        }
    }
    first_position_is_found(rest, sep, n);
    assert(rest.subrange(0, n) =~= head);
    assert(rest.subrange(n + 2, rest.len() as int) =~= e);
    position_from_is_first(b, sep, 0);
    position_from_is_first(e, sep, 0);
    if let Some(j) = position_of(e, sep) {
        let v = e.subrange(j, j + 2);
        assert(v[0] == e[j]);
        assert(e[j] == w[j]);
        if j > 0 {
            assert(v =~= b.subrange(j - 1, j + 1)) by {
                assert(e[j] == w[j] && e[j + 1] == w[j + 1]);
            }
            assert(occurs_at(b, sep, j - 1));
        }
    }
    one_piece(e, sep);
    assert(split_on(rest, sep) =~= seq![head, e]);
    padding_is_trimmed(seq![], a, seq![' ']);
    assert(seq![] + a + seq![' '] =~= head);
    padding_is_trimmed(seq![' '], b, seq![]);
    assert(seq![' '] + b + seq![] =~= w);
    padding_is_trimmed(seq![], e, y);
    assert(seq![] + e + y =~= w);
    assert(line_cells(line) =~= seq![trimmed(a), trimmed(b)]);
}

/// Two cells written on one line with a double pipe between them are the same
/// two cells as written on two lines: each text, without the white space around
/// it.
pub proof fn inline_and_separate_cells_read_alike(a: Seq<char>, b: Seq<char>)
    requires
        !(has(a, "||"@)),
        !(has(b, "||"@)),
        free_of(a, '\n'),
        free_of(b, '\n'),
        a.len() > 0 ==> a[0] != '-' && a[0] != '}',
        b.len() > 0 ==> b[0] != '-' && b[0] != '}',
    ensures
        cells_in(lines_of("| "@ + a + " || "@ + b)) == seq![trimmed(a), trimmed(b)],
        cells_in(lines_of("| "@ + a + "\n"@ + "| "@ + b)) == seq![trimmed(a), trimmed(b)],
{
    reveal_with_fuel(cells_in, 3);
    reveal_strlit("| ");
    reveal_strlit(" || ");
    reveal_strlit("\n");
    let line = "| "@ + a + " || "@ + b;
    one_line(line);
    inline_cells(a, b);
    assert(seq![line].drop_last() =~= seq![]);
    assert(cells_in(lines_of(line)) =~= seq![trimmed(a), trimmed(b)]);

    let first = "| "@ + a;
    let second = "| "@ + b;
    assert("\n"@ =~= seq!['\n']);
    assert("| "@ + a + "\n"@ + "| "@ + b =~= first + seq!['\n'] + second);
    a_line_feed_ends_a_line(first, second);
    one_line(second);
    single_cell(b);
    if a.len() > 0 && a.last() == '\r' {
        let less = a.drop_last();
        assert(without_cr(first) =~= "| "@ + less);
        position_from_is_first(a, "||"@, 0);
        position_from_is_first(less, "||"@, 0);
        if let Some(j) = position_of(less, "||"@) {
            reveal_strlit("||");
            assert(less.subrange(j, j + 2) =~= a.subrange(j, j + 2));
            assert(occurs_at(a, "||"@, j));
        }
        if less.len() > 0 {
            assert(less[0] == a[0]);
        }
        single_cell(less);
        assert(seq![] + less + seq!['\r'] =~= a);
        padding_is_trimmed(seq![], less, seq!['\r']);
    } else {
        assert(without_cr(first) == first) by {
            if a.len() == 0 {
                assert(first.last() == ' ');
            } else {
                assert(first.last() == a.last());
            }
        }
        single_cell(a);
    }
    let both = seq![without_cr(first), second];
    assert(lines_of(first + seq!['\n'] + second) =~= both);
    assert(both.drop_last() =~= seq![without_cr(first)]);
    assert(seq![without_cr(first)].drop_last() =~= seq![]);
    assert(cells_in(both) =~= seq![trimmed(a), trimmed(b)]);
}

/// The cells of a text are those of its first line and then those of the rest.
pub proof fn cells_are_read_line_by_line(a: Seq<char>, b: Seq<char>)
    requires
        free_of(a, '\n'),
    ensures
        cells_in(lines_of(a + seq!['\n'] + b)) == line_cells(without_cr(a)) + cells_in(lines_of(b)),
{
    a_line_feed_ends_a_line(a, b);
    cells_of_lines_in_front(without_cr(a), lines_of(b));
}

proof fn cells_of_lines_in_front(line: Seq<char>, lines: Seq<Seq<char>>)
    ensures
        cells_in(seq![line] + lines) == line_cells(line) + cells_in(lines),
    decreases lines.len(),
{
    let all = seq![line] + lines;
    if lines.len() == 0 {
        assert(all.drop_last().len() == 0);
        assert(cells_in(all.drop_last()) =~= seq![]);
        assert(cells_in(lines) =~= seq![]);
        assert(all.last() == line);
        assert(cells_in(all) =~= line_cells(line) + cells_in(lines));
    } else {
        cells_of_lines_in_front(line, lines.drop_last());
        assert(all.drop_last() =~= seq![line] + lines.drop_last());
        assert(all.last() == lines.last());
        assert(cells_in(all) =~= line_cells(line) + cells_in(lines));
    }
}

/// A line that does not begin with a pipe, that begins a row or that ends the
/// table has no cells.
pub proof fn only_pipes_begin_cells(x: Seq<char>, line: Seq<char>)
    requires
        blank(x),
        line.len() > 0,
        !is_space(line[0]),
        line[0] != '|' || (line.len() >= 2 && (line[1] == '-' || line[1] == '}')),
    ensures
        line_cells(x + line).len() == 0,
{
    reveal_strlit("| ");
    reveal_strlit("|");
    reveal_strlit("-");
    reveal_strlit("}");
    start_after_blank(x, line);
    assert(trimmed_start(line) == line);
    let t = trimmed(x + line);
    let y = end_splits(line);
    assert(t == trimmed_end(line));
    assert(line == t + y);
    if t.len() == 0 {
        assert(line[0] == y[0]);
    }
    assert(t[0] == line[0]);
    if line[0] == '|' {
        if t.len() == 1 {
            assert(line[1] == y[0]);
        }
        assert(t[1] == line[1]);
        let rest = t.subrange(1, t.len() as int);
        assert(t.subrange(0, 2)[1] == t[1]);
        assert(!(begins(t, "| "@)));
        assert(t.subrange(0, 1) =~= "|"@);
        assert(stripped(t, "|"@) == Some(rest));
        assert(rest[0] == line[1]);
        if line[1] == '-' {
            assert(rest.subrange(0, 1) =~= "-"@);
        } else {
            assert(rest.subrange(0, 1) =~= "}"@);
        }
    } else {
        assert(t.subrange(0, 1)[0] == t[0]);
        if t.len() >= 2 {
            assert(t.subrange(0, 2)[0] == t[0]);
        }
        assert(!(begins(t, "| "@)));
        assert(!(begins(t, "|"@)));
    }
}

// ---------------------------------------------------------------------------
// Months
// ---------------------------------------------------------------------------

/// `name` spells `word`, each letter in either case.
pub open spec fn in_any_case(name: Seq<char>, word: Seq<char>) -> bool {
    &&& name.len() == word.len()
    &&& forall|i: int| 0 <= i < word.len() ==> same_letter(#[trigger] name[i], word[i])
}

/// The same character, or the same ASCII letter in the other case.
pub open spec fn same_letter(a: char, b: char) -> bool {
    ||| a == b
    ||| 'A' <= a <= 'Z' && b as int == a as int + 32
    ||| 'A' <= b <= 'Z' && a as int == b as int + 32
}

proof fn lower_case_forgets_case(a: char, b: char)
    ensures
        lower_char(a) == lower_char(b) <==> same_letter(a, b),
{
    let x = a as u32;
    let y = b as u32;
    if is_upper(a) {
        assert(lower_char(a) as u32 == x + 32);
    }
    if is_upper(b) {
        assert(lower_char(b) as u32 == y + 32);
    }
}

/// Two texts are the same in lower case exactly when they differ in nothing but
/// the case of letters.
pub proof fn lower_case_compares_without_case(name: Seq<char>, word: Seq<char>)
    ensures
        lowered(name) == lowered(word) <==> in_any_case(name, word),
{
    if in_any_case(name, word) {
        assert forall|i: int| 0 <= i < word.len() implies lowered(name)[i] == lowered(word)[i] by {
            lower_case_forgets_case(name[i], word[i]);
        }
        assert(lowered(name) =~= lowered(word));
    }
    if lowered(name) == lowered(word) {
        assert(lowered(name).len() == name.len());
        assert(lowered(word).len() == word.len());
        assert forall|i: int| 0 <= i < word.len() implies same_letter(#[trigger] name[i], word[i]) by {
            assert(lowered(name)[i] == lowered(word)[i]);
            lower_case_forgets_case(name[i], word[i]);
        }
    }
}

proof fn first_months_in_lower_case()
    ensures
        lowered("January"@) == "january"@,
        lowered("February"@) == "february"@,
        lowered("March"@) == "march"@,
        lowered("April"@) == "april"@,
        lowered("May"@) == "may"@,
        lowered("June"@) == "june"@,
{
    reveal_strlit("January");
    reveal_strlit("january");
    reveal_strlit("February");
    reveal_strlit("february");
    reveal_strlit("March");
    reveal_strlit("march");
    reveal_strlit("April");
    reveal_strlit("april");
    reveal_strlit("May");
    reveal_strlit("may");
    reveal_strlit("June");
    reveal_strlit("june");
    assert(lowered("January"@) =~= "january"@);
    assert(lowered("February"@) =~= "february"@);
    assert(lowered("March"@) =~= "march"@);
    assert(lowered("April"@) =~= "april"@);
    assert(lowered("May"@) =~= "may"@);
    assert(lowered("June"@) =~= "june"@);
}

proof fn last_months_in_lower_case()
    ensures
        lowered("July"@) == "july"@,
        lowered("August"@) == "august"@,
        lowered("September"@) == "september"@,
        lowered("October"@) == "october"@,
        lowered("November"@) == "november"@,
        lowered("December"@) == "december"@,
{
    reveal_strlit("July");
    reveal_strlit("july");
    reveal_strlit("August");
    reveal_strlit("august");
    reveal_strlit("September");
    reveal_strlit("september");
    reveal_strlit("October");
    reveal_strlit("october");
    reveal_strlit("November");
    reveal_strlit("november");
    reveal_strlit("December");
    reveal_strlit("december");
    assert(lowered("July"@) =~= "july"@);
    assert(lowered("August"@) =~= "august"@);
    assert(lowered("September"@) =~= "september"@);
    assert(lowered("October"@) =~= "october"@);
    assert(lowered("November"@) =~= "november"@);
    assert(lowered("December"@) =~= "december"@);
}

/// The twelve names are twelve: they differ in length or in a letter.
proof fn months_are_told_apart(s: Seq<char>)
    ensures
        s == "january"@ ==> s.len() == 7 && s[0] == 'j',
        s == "february"@ ==> s.len() == 8 && s[0] == 'f',
        s == "march"@ ==> s.len() == 5 && s[0] == 'm',
        s == "april"@ ==> s.len() == 5 && s[0] == 'a',
        s == "may"@ ==> s.len() == 3 && s[0] == 'm',
        s == "june"@ ==> s.len() == 4 && s[2] == 'n',
        s == "july"@ ==> s.len() == 4 && s[2] == 'l',
        s == "august"@ ==> s.len() == 6 && s[0] == 'a',
        s == "september"@ ==> s.len() == 9 && s[0] == 's',
        s == "october"@ ==> s.len() == 7 && s[0] == 'o',
        s == "november"@ ==> s.len() == 8 && s[0] == 'n',
        s == "december"@ ==> s.len() == 8 && s[0] == 'd',
{
    reveal_strlit("january");
    reveal_strlit("february");
    reveal_strlit("march");
    reveal_strlit("april");
    reveal_strlit("may");
    reveal_strlit("june");
    reveal_strlit("july");
    reveal_strlit("august");
    reveal_strlit("september");
    reveal_strlit("october");
    reveal_strlit("november");
    reveal_strlit("december");
}

/// A name reads as a month exactly when it is that month's English name, in
/// whatever case, and as no month otherwise.
pub proof fn months_are_read_by_their_names(name: Seq<char>)
    ensures
        month_of(name) == Some(1u8) <==> in_any_case(name, "January"@),
        month_of(name) == Some(2u8) <==> in_any_case(name, "February"@),
        month_of(name) == Some(3u8) <==> in_any_case(name, "March"@),
        month_of(name) == Some(4u8) <==> in_any_case(name, "April"@),
        month_of(name) == Some(5u8) <==> in_any_case(name, "May"@),
        month_of(name) == Some(6u8) <==> in_any_case(name, "June"@),
        month_of(name) == Some(7u8) <==> in_any_case(name, "July"@),
        month_of(name) == Some(8u8) <==> in_any_case(name, "August"@),
        month_of(name) == Some(9u8) <==> in_any_case(name, "September"@),
        month_of(name) == Some(10u8) <==> in_any_case(name, "October"@),
        month_of(name) == Some(11u8) <==> in_any_case(name, "November"@),
        month_of(name) == Some(12u8) <==> in_any_case(name, "December"@),
        month_of(name) matches Some(m) ==> 1 <= m <= 12,
{
    first_months_in_lower_case();
    last_months_in_lower_case();
    months_are_told_apart(lowered(name));
    lower_case_compares_without_case(name, "January"@);
    lower_case_compares_without_case(name, "February"@);
    lower_case_compares_without_case(name, "March"@);
    lower_case_compares_without_case(name, "April"@);
    lower_case_compares_without_case(name, "May"@);
    lower_case_compares_without_case(name, "June"@);
    lower_case_compares_without_case(name, "July"@);
    lower_case_compares_without_case(name, "August"@);
    lower_case_compares_without_case(name, "September"@);
    lower_case_compares_without_case(name, "October"@);
    lower_case_compares_without_case(name, "November"@);
    lower_case_compares_without_case(name, "December"@);
}

/// The name that the calendar displays for a month is one of the twelve, and
/// reads back as the month.
pub proof fn displayed_months_read_back(m: u8)
    requires
        1 <= m <= 12,
    ensures
        month_of(month_name(m as int)) == Some(m),
        m == 1 ==> month_name(m as int) == "January"@,
        m == 2 ==> month_name(m as int) == "February"@,
        m == 3 ==> month_name(m as int) == "March"@,
        m == 4 ==> month_name(m as int) == "April"@,
        m == 5 ==> month_name(m as int) == "May"@,
        m == 6 ==> month_name(m as int) == "June"@,
        m == 7 ==> month_name(m as int) == "July"@,
        m == 8 ==> month_name(m as int) == "August"@,
        m == 9 ==> month_name(m as int) == "September"@,
        m == 10 ==> month_name(m as int) == "October"@,
        m == 11 ==> month_name(m as int) == "November"@,
        m == 12 ==> month_name(m as int) == "December"@,
{
    months_are_read_by_their_names(month_name(m as int));
}

// ---------------------------------------------------------------------------
// Markup
// ---------------------------------------------------------------------------

/// A text without brackets and quote marks holds no markup.
pub open spec fn unmarked(s: Seq<char>) -> bool {
    free_of(s, '<') && free_of(s, '>') && free_of(s, '\'')
}

proof fn no_tags(s: Seq<char>)
    requires
        free_of(s, '<'),
        free_of(s, '>'),
    ensures
        outside_tags(s) == s,
        tag_depth(s) == 0,
    decreases s.len(),
{
    if s.len() > 0 {
        let less = s.drop_last();
        assert forall|i: int| 0 <= i < less.len() implies #[trigger] less[i] != '<' && less[i]
            != '>' by {
            assert(less[i] == s[i]);
        }
        no_tags(less);
        assert(s.last() == s[s.len() - 1]);
        assert(s =~= less.push(s.last()));
    }
}

pub proof fn nothing_to_replace(s: Seq<char>, pat: Seq<char>, with: Seq<char>)
    requires
        !(has(s, pat)),
    ensures
        replaced(s, pat, with) == s,
{
}

/// A text that holds no markup reads as it is, without the white space around
/// it.
pub proof fn unmarked_text_reads_as_it_is(s: Seq<char>)
    requires
        unmarked(s),
    ensures
        plain(s) == trimmed(s),
{
    reveal_strlit("<!--");
    reveal_strlit("-->");
    reveal_strlit("'''");
    reveal_strlit("''");
    reveal_strlit("<br/>");
    reveal_strlit("<br />");
    lacks(s, "<!--"@, 0);
    lacks(s, "'''"@, 0);
    lacks(s, "''"@, 0);
    lacks(s, "<br/>"@, 0);
    lacks(s, "<br />"@, 0);
    assert(without_comments(s) == s);
    nothing_to_replace(s, "'''"@, ""@);
    nothing_to_replace(s, "''"@, ""@);
    nothing_to_replace(s, "<br/>"@, " "@);
    nothing_to_replace(s, "<br />"@, " "@);
    no_tags(s);
}

/// A comment is left out, whatever stands in it, up to its end.
pub proof fn comments_are_left_out(a: Seq<char>, comment: Seq<char>, b: Seq<char>)
    requires
        free_of(a, '<'),
        free_of(a, '>'),
        free_of(comment, '>'),
    ensures
        without_comments(a + "<!--"@ + comment + "-->"@ + b) == without_comments(a + b),
{
    reveal_strlit("<!--");
    reveal_strlit("-->");
    let open = "<!--"@;
    let close = "-->"@;
    let s = a + open + comment + close + b;
    assert(s =~= a + open + (comment + close + b));
    cut_behind(a, open, comment + close + b);
    let front = a + open + comment;
    close_is_found(front, b);
    assert(s =~= front + close + b);
    let n = front.len() as int;
    assert(s.subrange(0, a.len() as int) =~= a);
    assert(s.subrange(n + 3, s.len() as int) =~= b);
}

/// The end of a comment is found at the first closing bracket that two dashes
/// stand in front of.
pub proof fn close_is_found(front: Seq<char>, b: Seq<char>)
    requires
        free_of(front, '>'),
    ensures
        position_of(front + "-->"@ + b, "-->"@) == Some(front.len() as int),
        cut(front + "-->"@ + b, "-->"@) == Some((front, b)),
{
    reveal_strlit("-->");
    let close = "-->"@;
    let s = front + close + b;
    let n = front.len() as int;
    assert(s.subrange(n, n + 3) =~= close);
    assert forall|j: int| 0 <= j < n implies !occurs_at(s, close, j) by {
        if occurs_at(s, close, j) {
            assert(s.subrange(j, j + 3)[2] == s[j + 2]);
            if j + 2 < n {
                assert(s[j + 2] == front[j + 2]);
            } else {
                assert(s[j + 2] == close[j + 2 - n]);
            }
        }
    }
    first_position_is_found(s, close, n);
    assert(s.subrange(0, n) =~= front);
    assert(s.subrange(n + 3, s.len() as int) =~= b);
}

proof fn tags_in_front(a: Seq<char>, b: Seq<char>)
    requires
        tag_depth(a) == 0,
        free_of(b, '<'),
        free_of(b, '>'),
    ensures
        outside_tags(a + b) == outside_tags(a) + b,
        tag_depth(a + b) == 0,
    decreases b.len(),
{
    if b.len() == 0 {
        assert(a + b =~= a);
        assert(outside_tags(a) + b =~= outside_tags(a));
    } else {
        let less = b.drop_last();
        assert forall|i: int| 0 <= i < less.len() implies #[trigger] less[i] != '<' && less[i]
            != '>' by {
            assert(less[i] == b[i]);
        }
        tags_in_front(a, less);
        assert((a + b).drop_last() =~= a + less);
        assert((a + b).last() == b.last());
        assert(b.last() == b[b.len() - 1]);
        assert(outside_tags(a + b) =~= outside_tags(a) + b);
    }
}

proof fn inside_a_tag(a: Seq<char>, tag: Seq<char>)
    requires
        tag_depth(a) == 1,
        free_of(tag, '<'),
        free_of(tag, '>'),
    ensures
        outside_tags(a + tag) == outside_tags(a),
        tag_depth(a + tag) == 1,
    decreases tag.len(),
{
    if tag.len() == 0 {
        assert(a + tag =~= a);
    } else {
        let less = tag.drop_last();
        assert forall|i: int| 0 <= i < less.len() implies #[trigger] less[i] != '<' && less[i]
            != '>' by {
            assert(less[i] == tag[i]);
        }
        inside_a_tag(a, less);
        assert((a + tag).drop_last() =~= a + less);
        assert((a + tag).last() == tag.last());
        assert(tag.last() == tag[tag.len() - 1]);
    }
}

/// A tag is left out, and what stands on either side of it stays.
pub proof fn tags_are_left_out(a: Seq<char>, tag: Seq<char>, b: Seq<char>)
    requires
        free_of(a, '<'),
        free_of(a, '>'),
        free_of(tag, '<'),
        free_of(tag, '>'),
        free_of(b, '<'),
        free_of(b, '>'),
    ensures
        outside_tags(a + seq!['<'] + tag + seq!['>'] + b) == a + b,
{
    no_tags(a);
    let opened = a + seq!['<'];
    assert(opened.drop_last() =~= a);
    inside_a_tag(opened, tag);
    let closed = opened + tag + seq!['>'];
    assert(closed.drop_last() =~= opened + tag);
    tags_in_front(closed, b);
}

// ---------------------------------------------------------------------------
// Links, names and flags
// ---------------------------------------------------------------------------

/// The first link of a cell leads to the article in front of its pipe and shows
/// the text behind it.
pub proof fn a_piped_link_is_read(a: Seq<char>, title: Seq<char>, label: Seq<char>, b: Seq<char>)
    requires
        free_of(a, '['),
        free_of(title, '|'),
        free_of(title, ']'),
        free_of(label, '|'),
        free_of(label, ']'),
    ensures
        link_target(a + "[["@ + title + "|"@ + label + "]]"@ + b) == (if trimmed(title).len() > 0 {
            Some(trimmed(title))
        } else {
            None
        }),
        link_label(a + "[["@ + title + "|"@ + label + "]]"@ + b) == (if plain(label).len() > 0 {
            Some(plain(label))
        } else {
            None
        }),
{
    reveal_strlit("[[");
    reveal_strlit("]]");
    reveal_strlit("|");
    let cell = a + "[["@ + title + "|"@ + label + "]]"@ + b;
    let inner = title + "|"@ + label;
    assert(cell =~= a + "[["@ + (inner + "]]"@ + b));
    cut_behind(a, "[["@, inner + "]]"@ + b);
    assert forall|i: int| 0 <= i < inner.len() implies #[trigger] inner[i] != ']' by {
        if i < title.len() {
            assert(inner[i] == title[i]);
        } else if i > title.len() {
            assert(inner[i] == label[i - title.len() - 1]);
        }
    }
    cut_behind(inner, "]]"@, b);
    assert(link_inner(cell) == Some(inner));
    cut_behind(title, "|"@, label);
    lacks(label, "|"@, 0);
    assert(split_on(label, "|"@) == seq![label]);
    assert(split_on(inner, "|"@) =~= seq![title, label]);
}

/// A second pipe in a link ends what the link shows; a link that is not closed is
/// none.
pub proof fn a_second_pipe_ends_the_label(
    a: Seq<char>,
    title: Seq<char>,
    label: Seq<char>,
    more: Seq<char>,
    b: Seq<char>,
    open: Seq<char>,
)
    requires
        free_of(a, '['),
        free_of(title, '|') && free_of(title, ']'),
        free_of(label, '|') && free_of(label, ']'),
        free_of(more, ']'),
        !(has(open, "]]"@)),
    ensures
        ({
            let cell = a + "[["@ + (title + "|"@ + (label + "|"@ + more) + "]]"@ + b);
            &&& link_target(cell) == (if trimmed(title).len() > 0 {
                Some(trimmed(title))
            } else {
                None
            })
            &&& link_label(cell) == (if plain(label).len() > 0 {
                Some(plain(label))
            } else {
                None
            })
        }),
        link_target(a + "[["@ + open) is None,
        link_label(a + "[["@ + open) is None,
{
    reveal_strlit("[[");
    reveal_strlit("]]");
    reveal_strlit("|");
    let behind = label + "|"@ + more;
    let inner = title + "|"@ + behind;
    cut_behind(a, "[["@, inner + "]]"@ + b);
    cut_behind(a, "[["@, open);
    assert(free_of(behind, ']'));
    assert(free_of(inner, ']'));
    cut_behind(inner, "]]"@, b);
    cut_behind(title, "|"@, behind);
    cut_behind(label, "|"@, more);
    assert(split_on(inner, "|"@) == seq![title] + split_on(behind, "|"@));
    assert(split_on(behind, "|"@) == seq![label] + split_on(more, "|"@));
    assert(split_on(inner, "|"@)[1] == label);
}

/// A link without a pipe leads to the article it shows.
pub proof fn a_bare_link_is_read(a: Seq<char>, title: Seq<char>, b: Seq<char>)
    requires
        free_of(a, '['),
        free_of(title, '|'),
        free_of(title, ']'),
    ensures
        link_target(a + "[["@ + title + "]]"@ + b) == (if trimmed(title).len() > 0 {
            Some(trimmed(title))
        } else {
            None
        }),
        link_label(a + "[["@ + title + "]]"@ + b) == (if plain(title).len() > 0 {
            Some(plain(title))
        } else {
            None
        }),
{
    reveal_strlit("[[");
    reveal_strlit("]]");
    reveal_strlit("|");
    let cell = a + "[["@ + title + "]]"@ + b;
    assert(cell =~= a + "[["@ + (title + "]]"@ + b));
    cut_behind(a, "[["@, title + "]]"@ + b);
    cut_behind(title, "]]"@, b);
    lacks(title, "|"@, 0);
    assert(split_on(title, "|"@) == seq![title]);
}

/// A text without a bracket has no link.
pub proof fn no_bracket_no_link(cell: Seq<char>)
    requires
        free_of(cell, '['),
    ensures
        link_target(cell) is None,
        link_label(cell) is None,
{
    reveal_strlit("[[");
    lacks(cell, "[["@, 0);
}

/// A trailing parenthesis in a title is no part of the name; a title that does
/// not end with one, or has no space in front of one, is the name.
pub proof fn names_drop_a_trailing_parenthesis(name: Seq<char>, note: Seq<char>)
    requires
        !(has(name, " ("@)),
    ensures
        shown_name(name + " ("@ + note + ")"@) == name,
        shown_name(name) == name,
        note.len() > 0 && note.last() != ')' ==> shown_name(name + " ("@ + note) == name + " ("@
            + note,
{
    reveal_strlit(" (");
    reveal_strlit(")");
    let title = name + " ("@ + note + ")"@;
    assert(title =~= name + " ("@ + (note + ")"@));
    cut_behind_whole(name, " ("@, note + ")"@);
    assert(title.subrange(title.len() - 1, title.len() as int) =~= ")"@);
    let open = name + " ("@ + note;
    if note.len() > 0 && note.last() != ')' {
        assert(open.last() == note.last());
        assert(open.subrange(open.len() - 1, open.len() as int)[0] == open.last());
    }
}

/// A flag gives its country's three letters as capitals; a flag of anything else
/// gives none.
pub proof fn flags_give_three_capitals(
    a: Seq<char>,
    code: Seq<char>,
    more: Seq<char>,
    b: Seq<char>,
)
    requires
        free_of(a, '{'),
        free_of(code, '}'),
        free_of(code, '|'),
        free_of(more, '}'),
        more.len() > 0 ==> more[0] == '|',
        code.len() > 0 ==> !is_space(code[0]) && !is_space(code.last()),
    ensures
        ({
            let flag = flag_in(a + "{{flagicon|"@ + code + more + "}}"@ + b);
            let letters = code.len() == 3 && is_letter(code[0]) && is_letter(code[1]) && is_letter(
                code[2],
            );
            &&& !letters ==> flag.len() == 0
            &&& letters ==> flag.len() == 3 && in_any_case(flag, code) && forall|i: int|
                0 <= i < 3 ==> 'A' <= #[trigger] flag[i] <= 'Z'
        }),
{
    reveal_strlit("{{flagicon|");
    reveal_strlit("}}");
    reveal_strlit("|");
    let open = "{{flagicon|"@;
    let cell = a + open + code + more + "}}"@ + b;
    let inner = code + more;
    assert(cell =~= a + open + (inner + "}}"@ + b));
    cut_behind(a, open, inner + "}}"@ + b);
    assert forall|i: int| 0 <= i < inner.len() implies #[trigger] inner[i] != '}' by {
        if i < code.len() {
            assert(inner[i] == code[i]);
        } else {
            assert(inner[i] == more[i - code.len()]);
        }
    }
    cut_behind(inner, "}}"@, b);
    if more.len() > 0 {
        let rest = more.subrange(1, more.len() as int);
        assert(inner =~= code + "|"@ + rest);
        cut_behind(code, "|"@, rest);
    } else {
        assert(inner =~= code);
        lacks(code, "|"@, 0);
    }
    assert(before(inner, "|"@) == code);
    bare_text_is_kept(code);
    if code.len() == 3 && is_letter(code[0]) && is_letter(code[1]) && is_letter(code[2]) {
        assert(all_letters(code)) by {
            assert forall|i: int| 0 <= i < code.len() implies is_letter(#[trigger] code[i]) by {
                assert(i == 0 || i == 1 || i == 2);
            }
        }
        let flag = raised(code);
        assert forall|i: int| 0 <= i < 3 implies 'A' <= #[trigger] flag[i] <= 'Z' && same_letter(
            flag[i],
            code[i],
        ) by {
            capital_of(code[i]);
            assert(flag[i] == upper_char(code[i]));
            assert(i == 0 || i == 1 || i == 2);
        }
    } else if code.len() == 3 {
        assert(!all_letters(code)) by {
            if all_letters(code) {
                assert(is_letter(code[0]) && is_letter(code[1]) && is_letter(code[2]));
            }
        }
    }
}

proof fn capital_of(c: char)
    ensures
        is_letter(c) ==> 'A' <= upper_char(c) <= 'Z' && same_letter(upper_char(c), c),
{
    let x = c as u32;
    if is_lower(c) {
        assert(upper_char(c) as u32 == x - 32);
    }
}

/// A cell without a flag gives no country.
pub proof fn no_flag_no_country(cell: Seq<char>)
    requires
        !(has(cell, "{{flagicon|"@)),
    ensures
        flag_in(cell).len() == 0,
{
}

// ---------------------------------------------------------------------------
// Numbers
// ---------------------------------------------------------------------------

proof fn digits_of_a_grouped_number(s: Seq<char>)
    requires
        forall|i: int| 0 <= i < s.len() ==> is_digit(#[trigger] s[i]) || s[i] == ',',
    ensures
        digits_in(s) == ungrouped(s),
    decreases s.len(),
{
    reveal(Seq::filter);
    if s.len() > 0 {
        let less = s.drop_last();
        assert forall|i: int| 0 <= i < less.len() implies is_digit(#[trigger] less[i]) || less[i]
            == ',' by {
            assert(less[i] == s[i]);
        }
        digits_of_a_grouped_number(less);
        assert(s.last() == s[s.len() - 1]);
    }
}

/// A number reads back from the way it is displayed, with commas, and what is no
/// digit around it does not matter.
pub proof fn grouped_numbers_read_back(n: u32)
    ensures
        int_in(grouped(n as nat)) == Some(n),
        is_grouped_number(grouped(n as nat)),
        grouped(n as nat).len() > 0,
        is_digit(grouped(n as nat)[0]),
        is_digit(grouped(n as nat).last()),
{
    let g = grouped(n as nat);
    commas_stand_before_every_third_digit(n as nat);
    assert forall|i: int| 0 <= i < g.len() implies is_digit(#[trigger] g[i]) || g[i] == ',' by {
        if (g.len() - i) % 4 != 0 {
            assert(is_digit(g[i]));
        }
    }
    digits_of_a_grouped_number(g);
    displayed_points_read_back(n);
    assert((g.len() - (g.len() - 1)) % 4 != 0);
    assert(is_digit(g[g.len() - 1]));
    assert(is_digit(g[0]));
}

pub proof fn digit_is_bare(c: char)
    requires
        is_digit(c),
    ensures
        !is_space(c),
        c != '<' && c != '>' && c != '|' && c != '[' && c != ']',
{
}

/// A pattern replaced between two texts that do not hold what it begins with.
proof fn one_replacement(a: Seq<char>, pat: Seq<char>, b: Seq<char>, with: Seq<char>)
    requires
        pat.len() > 0,
        free_of(a, pat[0]),
        free_of(b, pat[0]),
    ensures
        replaced(a + pat + b, pat, with) == a + with + b,
{
    cut_behind(a, pat, b);
    lacks(b, pat, 0);
    nothing_to_replace(b, pat, with);
}

/// A text that lost its quote marks and line breaks, if it had any, and holds no
/// other markup.
proof fn plain_from(s: Seq<char>, t: Seq<char>)
    requires
        unmarked(t),
        !(has(s, "<!--"@)),
        ({
            let bare = replaced(replaced(s, "'''"@, ""@), "''"@, ""@);
            replaced(replaced(bare, "<br/>"@, " "@), "<br />"@, " "@) == t
        }),
    ensures
        plain(s) == trimmed(t),
{
    assert(without_comments(s) == s);
    no_tags(t);
}

/// A text with one bracket, and behind it something else than in `pat`, does not
/// hold `pat`.
proof fn another_tag(s: Seq<char>, n: int, pat: Seq<char>, k: int)
    requires
        forall|j: int| 0 <= j < s.len() && j != n ==> #[trigger] s[j] != '<',
        0 <= n,
        1 <= k < pat.len(),
        pat[0] == '<',
        n + k < s.len(),
        s[n + k] != pat[k],
    ensures
        !(has(s, pat)),
        cut(s, pat) is None,
{
    position_from_is_first(s, pat, 0);
    if let Some(j) = position_of(s, pat) {
        assert(occurs_at(s, pat, j));
        let found = s.subrange(j, j + pat.len());
        assert(found[0] == s[j]);
        assert(found[k] == s[j + k]);
    }
}

/// A line break reads as a space, in either of the two ways it is written.
pub proof fn line_breaks_read_as_spaces(a: Seq<char>, b: Seq<char>)
    requires
        unmarked(a),
        unmarked(b),
    ensures
        plain(a + "<br/>"@ + b) == trimmed(a + " "@ + b),
        plain(a + "<br />"@ + b) == trimmed(a + " "@ + b),
{
    reveal_strlit("<!--");
    reveal_strlit("'''");
    reveal_strlit("''");
    reveal_strlit("<br/>");
    reveal_strlit("<br />");
    reveal_strlit(" ");
    let t = a + " "@ + b;
    let one = a + "<br/>"@ + b;
    let two = a + "<br />"@ + b;
    assert(unmarked(t));
    let n = a.len() as int;
    assert(one[n + 1] == 'b');
    assert(two[n + 1] == 'b');
    assert(two[n + 3] == ' ');
    another_tag(one, n, "<!--"@, 1);
    another_tag(two, n, "<!--"@, 1);
    no_quotes_to_replace(one);
    no_quotes_to_replace(two);
    one_replacement(a, "<br/>"@, b, " "@);
    lacks(t, "<br />"@, 0);
    nothing_to_replace(t, "<br />"@, " "@);
    plain_from(one, t);
    another_tag(two, n, "<br/>"@, 3);
    nothing_to_replace(two, "<br/>"@, " "@);
    one_replacement(a, "<br />"@, b, " "@);
    plain_from(two, t);
}

/// The quote marks for italics and for bold are left out.
pub proof fn quote_marks_are_left_out(a: Seq<char>, b: Seq<char>, c: Seq<char>)
    requires
        unmarked(a),
        unmarked(b),
        unmarked(c),
        b.len() > 0,
    ensures
        plain(a + "''"@ + b + "''"@ + c) == trimmed(a + b + c),
        plain(a + "'''"@ + b + "'''"@ + c) == trimmed(a + b + c),
{
    reveal_strlit("<!--");
    reveal_strlit("'''");
    reveal_strlit("''");
    let t = a + b + c;
    let slanted = a + "''"@ + b + "''"@ + c;
    let bold = a + "'''"@ + b + "'''"@ + c;
    lacks(slanted, "<!--"@, 0);
    lacks(bold, "<!--"@, 0);
    no_breaks_to_replace(t);
    two_replacements(a, "''"@, b, c);
    two_marks_are_not_three(a, b, c);
    nothing_to_replace(slanted, "'''"@, ""@);
    plain_from(slanted, t);
    two_replacements(a, "'''"@, b, c);
    no_quotes_to_replace(t);
    plain_from(bold, t);
}

/// A pattern taken out at two places.
proof fn two_replacements(a: Seq<char>, pat: Seq<char>, b: Seq<char>, c: Seq<char>)
    requires
        pat.len() > 0,
        free_of(a, pat[0]),
        free_of(b, pat[0]),
        free_of(c, pat[0]),
    ensures
        replaced(a + pat + b + pat + c, pat, ""@) == a + b + c,
{
    reveal_strlit("");
    let rest = b + pat + c;
    assert(a + pat + b + pat + c =~= a + pat + rest);
    cut_behind(a, pat, rest);
    one_replacement(b, pat, c, ""@);
    assert(a + ""@ + (b + ""@ + c) =~= a + b + c);
}

proof fn two_marks_are_not_three(a: Seq<char>, b: Seq<char>, c: Seq<char>)
    requires
        free_of(a, '\''),
        free_of(b, '\''),
        free_of(c, '\''),
        b.len() > 0,
    ensures
        !(has(a + "''"@ + b + "''"@ + c, "'''"@)),
{
    reveal_strlit("'''");
    reveal_strlit("''");
    let pat = "'''"@;
    let s = a + "''"@ + b + "''"@ + c;
    let n = a.len() as int;
    let m = n + 2 + b.len();
    assert forall|j: int| 0 <= j < s.len() && j != n && j != n + 1 && j != m && j != m
        + 1 implies #[trigger] s[j] != '\'' by {
        if j < n {
            assert(s[j] == a[j]);
        } else if j < m {
            assert(s[j] == b[j - n - 2]);
        } else {
            assert(s[j] == c[j - m - 2]);
        }
    }
    position_from_is_first(s, pat, 0);
    if let Some(j) = position_of(s, pat) {
        assert(occurs_at(s, pat, j));
        let found = s.subrange(j, j + 3);
        assert(found[0] == s[j] && found[1] == s[j + 1] && found[2] == s[j + 2]);
    }
}

proof fn no_breaks_to_replace(s: Seq<char>)
    requires
        free_of(s, '<'),
    ensures
        replaced(s, "<br/>"@, " "@) == s,
        replaced(s, "<br />"@, " "@) == s,
{
    reveal_strlit("<br/>");
    reveal_strlit("<br />");
    lacks(s, "<br/>"@, 0);
    lacks(s, "<br />"@, 0);
    nothing_to_replace(s, "<br/>"@, " "@);
    nothing_to_replace(s, "<br />"@, " "@);
}

proof fn no_quotes_to_replace(s: Seq<char>)
    requires
        free_of(s, '\''),
    ensures
        replaced(s, "'''"@, ""@) == s,
        replaced(s, "''"@, ""@) == s,
{
    reveal_strlit("'''");
    reveal_strlit("''");
    lacks(s, "'''"@, 0);
    lacks(s, "''"@, 0);
    nothing_to_replace(s, "'''"@, ""@);
    nothing_to_replace(s, "''"@, ""@);
}

/// A line that is an exclamation mark and a number states the number; a line
/// without the mark states none.
pub proof fn totals_stand_behind_an_exclamation_mark(
    x: Seq<char>,
    y: Seq<char>,
    z: Seq<char>,
    n: u32,
)
    requires
        blank(x),
        blank(y),
        blank(z),
    ensures
        total_in_line(x + "!"@ + y + grouped(n as nat) + z) == Some(n),
        total_in_line(x + grouped(n as nat) + z) is None,
{
    reveal_strlit("!");
    let g = grouped(n as nat);
    grouped_numbers_read_back(n);
    digit_is_bare(g[0]);
    digit_is_bare(g.last());
    let core = "!"@ + y + g;
    assert(x + "!"@ + y + g + z =~= x + core + z);
    padding_is_trimmed(x, core, z);
    assert(core[0] == '!');
    assert(core.last() == g.last());
    bare_text_is_kept(core);
    assert(core.subrange(0, 1) =~= "!"@);
    let rest = core.subrange(1, core.len() as int);
    assert(rest =~= y + g + seq![]);
    padding_is_trimmed(y, g, seq![]);
    bare_text_is_kept(g);
    padding_is_trimmed(x, g, z);
    assert(g.subrange(0, 1)[0] == g[0]);
}

/// The number that an attribute is set to is read with quotes around it and
/// without.
pub proof fn attributes_are_read_with_or_without_quotes(
    a: Seq<char>,
    name: Seq<char>,
    n: u32,
    b: Seq<char>,
)
    requires
        name.len() > 0,
        forall|q: int| 1 <= q < name.len() ==> #[trigger] name[q] != name[0],
        !(has(a, name)),
        b.len() > 0 ==> !is_digit(b[0]),
    ensures
        attribute(a + name + "="@ + decimal(n as nat) + b, name) == Some(n as usize),
        attribute(a + name + "=\""@ + decimal(n as nat) + b, name) == Some(n as usize),
{
    reveal_strlit("=");
    reveal_strlit("=\"");
    let d = decimal(n as nat);
    decimals_read_back(n as nat);
    bare_number_is_read(n as nat, b);
    quoted_number_is_read(n as nat, b);
    let bare = d + b;
    let quoted = seq!['"'] + d + b;
    set_value_is_found(a, name, bare);
    set_value_is_found(a, name, quoted);
    assert(a + name + "="@ + d + b =~= a + name + ("="@ + bare));
    assert(a + name + "=\""@ + d + b =~= a + name + ("="@ + quoted));
}

/// What an attribute is set to stands behind the equals sign.
proof fn set_value_is_found(a: Seq<char>, name: Seq<char>, value: Seq<char>)
    requires
        name.len() > 0,
        forall|q: int| 1 <= q < name.len() ==> #[trigger] name[q] != name[0],
        !(has(a, name)),
    ensures
        cut(a + name + ("="@ + value), name) == Some((a, "="@ + value)),
        stripped(trimmed_start("="@ + value), "="@) == Some(value),
{
    reveal_strlit("=");
    let s = "="@ + value;
    cut_behind_whole(a, name, s);
    assert(s[0] == '=');
    assert(trimmed_start(s) == s);
    assert(s.subrange(0, 1) =~= "="@);
    assert(s.subrange(1, s.len() as int) =~= value);
}

proof fn bare_number_is_read(n: nat, b: Seq<char>)
    requires
        b.len() > 0 ==> !is_digit(b[0]),
    ensures
        ({
            let v = unled(trimmed_start(decimal(n) + b), '"');
            v.subrange(0, leading_digits(v) as int) == decimal(n)
        }),
{
    let d = decimal(n);
    decimals_read_back(n);
    leading_digits_of(d, b);
    let v = d + b;
    assert(is_digit(d[0]));
    assert(v[0] == d[0]);
    assert(trimmed_start(v) == v);
    assert(unled(v, '"') == v);
    assert(v.subrange(0, d.len() as int) =~= d);
}

proof fn quoted_number_is_read(n: nat, b: Seq<char>)
    requires
        b.len() > 0 ==> !is_digit(b[0]),
    ensures
        ({
            let v = unled(trimmed_start(seq!['"'] + decimal(n) + b), '"');
            v.subrange(0, leading_digits(v) as int) == decimal(n)
        }),
{
    let d = decimal(n);
    decimals_read_back(n);
    leading_digits_of(d, b);
    let v = d + b;
    let s = seq!['"'] + d + b;
    assert(is_digit(d[0]));
    assert(v[0] == d[0]);
    assert(s[0] == '"');
    assert(trimmed_start(s) == s);
    assert(s.subrange(1, s.len() as int) =~= v);
    assert(unled(v, '"') == v);
    assert(unled(s, '"') == unled(v, '"'));
    assert(v.subrange(0, d.len() as int) =~= d);
}

proof fn leading_digits_of(d: Seq<char>, b: Seq<char>)
    requires
        all_digits(d),
        b.len() > 0 ==> !is_digit(b[0]),
    ensures
        leading_digits(d + b) == d.len(),
    decreases d.len(),
{
    if d.len() == 0 {
        assert(d + b =~= b);
    } else {
        let rest = d.subrange(1, d.len() as int);
        assert forall|i: int| 0 <= i < rest.len() implies is_digit(#[trigger] rest[i]) by {
            assert(rest[i] == d[i + 1]);
        }
        leading_digits_of(rest, b);
        assert((d + b)[0] == d[0]);
        assert((d + b).subrange(1, (d + b).len() as int) =~= rest + b);
    }
}

// ---------------------------------------------------------------------------
// Dates and addresses
// ---------------------------------------------------------------------------

proof fn word_is_measured(w: Seq<char>, rest: Seq<char>)
    requires
        forall|i: int| 0 <= i < w.len() ==> !is_space(#[trigger] w[i]),
        rest.len() > 0 ==> is_space(rest[0]),
    ensures
        word_len(w + rest) == w.len(),
    decreases w.len(),
{
    if w.len() == 0 {
        assert(w + rest =~= rest);
    } else {
        let less = w.subrange(1, w.len() as int);
        assert forall|i: int| 0 <= i < less.len() implies !is_space(#[trigger] less[i]) by {
            assert(less[i] == w[i + 1]);
        }
        word_is_measured(less, rest);
        assert((w + rest)[0] == w[0]);
        assert((w + rest).subrange(1, (w + rest).len() as int) =~= less + rest);
    }
}

/// Two words apart by white space are two words.
pub proof fn two_words_are_read(a: Seq<char>, gap: Seq<char>, b: Seq<char>)
    requires
        a.len() > 0,
        b.len() > 0,
        gap.len() > 0,
        blank(gap),
        forall|i: int| 0 <= i < a.len() ==> !is_space(#[trigger] a[i]),
        forall|i: int| 0 <= i < b.len() ==> !is_space(#[trigger] b[i]),
    ensures
        words_of(a + gap + b) == seq![a, b],
{
    let s = a + gap + b;
    let rest = gap + b;
    assert(s =~= a + rest);
    assert(s[0] == a[0]);
    assert(trimmed_start(s) == s);
    assert(rest[0] == gap[0]);
    word_is_measured(a, rest);
    let n = a.len() as int;
    assert(s.subrange(0, n) =~= a);
    assert(s.subrange(n, s.len() as int) =~= rest);
    start_after_blank(gap, b);
    assert(trimmed_start(b) == b) by {
        assert(!is_space(b[0]));
    }
    assert(trimmed_start(rest) == b);
    word_is_measured(b, seq![]);
    assert(b + seq![] =~= b);
    let m = b.len() as int;
    assert(b.subrange(0, m) =~= b);
    assert(b.subrange(m, m) =~= seq![]);
    assert(words_of(Seq::<char>::empty()) =~= seq![]);
    assert(words_of(rest) =~= seq![b]);
    assert(words_of(s) =~= seq![a, b]);
}

proof fn month_names_are_words(m: u8)
    requires
        1 <= m <= 12,
    ensures
        month_name(m as int).len() > 0,
        forall|i: int|
            0 <= i < month_name(m as int).len() ==> is_letter(#[trigger] month_name(m as int)[i]),
{
    reveal_strlit("January");
    reveal_strlit("February");
    reveal_strlit("March");
    reveal_strlit("April");
    reveal_strlit("May");
    reveal_strlit("June");
    reveal_strlit("July");
    reveal_strlit("August");
    reveal_strlit("September");
    reveal_strlit("October");
    reveal_strlit("November");
    reveal_strlit("December");
}

/// A date written as a day and the name of its month is that day of that month
/// of the season, if there is such a day, and none otherwise.
pub proof fn a_written_date_is_read(
    a: Seq<char>,
    day: u8,
    month: u8,
    b: Seq<char>,
    season: i32,
)
    requires
        free_of(a, '{'),
        1 <= month <= 12,
    ensures
        dts_in(
            a + "{{dts|"@ + decimal(day as nat) + " "@ + month_name(month as int) + "}}"@ + b,
            season,
        ) == (if valid_date(season as int, month as int, day as int) {
            Some(CalendarDate { year: season, month, day })
        } else {
            None
        }),
{
    reveal_strlit("{{dts|");
    reveal_strlit("}}");
    reveal_strlit(" ");
    let d = decimal(day as nat);
    let name = month_name(month as int);
    let open = "{{dts|"@;
    let inner = d + " "@ + name;
    let cell = a + open + d + " "@ + name + "}}"@ + b;
    assert(cell =~= a + open + (inner + "}}"@ + b));
    cut_behind(a, open, inner + "}}"@ + b);
    decimals_read_back(day as nat);
    month_names_are_words(month);
    assert forall|i: int| 0 <= i < d.len() implies !is_space(#[trigger] d[i]) && d[i] != '}' && d[i]
        != '+' by {
        assert(is_digit(d[i]));
    }
    assert forall|i: int| 0 <= i < name.len() implies !is_space(#[trigger] name[i]) && name[i]
        != '}' by {
        assert(is_letter(name[i]));
    }
    assert forall|i: int| 0 <= i < inner.len() implies #[trigger] inner[i] != '}' by {
        if i < d.len() {
            assert(inner[i] == d[i]);
        } else if i == d.len() {
            assert(inner[i] == ' ');
        } else {
            assert(inner[i] == name[i - d.len() - 1]);
        }
    }
    cut_behind(inner, "}}"@, b);
    two_words_are_read(d, " "@, name);
    displayed_months_read_back(month);
    assert(d[0] != '+');
    assert(unsigned(d, u8::MAX as nat) == Some(day as nat));
}

/// A date is its first two words, whatever follows them; fewer words are none.
pub proof fn a_date_is_two_words(words: Seq<Seq<char>>, more: Seq<Seq<char>>, season: i32)
    ensures
        words.len() < 2 ==> crate::source::day_and_month(words, season) is None,
        words.len() >= 2 ==> crate::source::day_and_month(words + more, season)
            == crate::source::day_and_month(words, season),
        crate::source::day_and_month(words, season) matches Some(d) ==> d.year == season
            && d.valid(),
{
    if words.len() >= 2 {
        assert((words + more)[0] == words[0]);
        assert((words + more)[1] == words[1]);
    }
}

proof fn url_is_measured(url: Seq<char>, rest: Seq<char>)
    requires
        forall|i: int|
            0 <= i < url.len() ==> #[trigger] url[i] != '|' && url[i] != '}' && !is_space(url[i]),
        rest.len() > 0 ==> rest[0] == '|' || rest[0] == '}' || is_space(rest[0]),
    ensures
        url_len(url + rest) == url.len(),
    decreases url.len(),
{
    if url.len() == 0 {
        assert(url + rest =~= rest);
    } else {
        let less = url.subrange(1, url.len() as int);
        assert forall|i: int| 0 <= i < less.len() implies #[trigger] less[i] != '|' && less[i]
            != '}' && !is_space(less[i]) by {
            assert(less[i] == url[i + 1]);
        }
        url_is_measured(less, rest);
        assert((url + rest)[0] == url[0]);
        assert((url + rest).subrange(1, (url + rest).len() as int) =~= less + rest);
    }
}

/// The address of a citation is what stands behind its first `url=`, up to a
/// pipe, a closing brace or white space, if it is a web address.
pub proof fn a_cited_address_is_read(a: Seq<char>, url: Seq<char>, rest: Seq<char>)
    requires
        !(has(a, "url="@)),
        forall|i: int|
            0 <= i < url.len() ==> #[trigger] url[i] != '|' && url[i] != '}' && !is_space(url[i]),
        rest.len() > 0 ==> rest[0] == '|' || rest[0] == '}' || is_space(rest[0]),
    ensures
        url_in(a + "url="@ + url + rest) == (if url.len() >= 4 && url[0] == 'h' && url[1] == 't'
            && url[2] == 't' && url[3] == 'p' {
            Some(url)
        } else {
            None
        }),
{
    reveal_strlit("url=");
    reveal_strlit("http");
    let mark = "url="@;
    assert(a + mark + url + rest =~= a + mark + (url + rest));
    cut_behind_whole(a, mark, url + rest);
    url_is_measured(url, rest);
    assert((url + rest).subrange(0, url.len() as int) =~= url);
    if url.len() >= 4 {
        let w = url.subrange(0, 4);
        assert(w[0] == url[0] && w[1] == url[1] && w[2] == url[2] && w[3] == url[3]);
        if url[0] == 'h' && url[1] == 't' && url[2] == 't' && url[3] == 'p' {
            assert(w =~= "http"@);
        }
    }
}

/// The announcement of a row of the qualifier table is the player that its first
/// link leads to, on its date and by its address; a row that lacks one of these,
/// or the left alignment of a player, announces nobody.
pub proof fn an_announcement_needs_player_date_and_source(chunk: Seq<char>, season: i32)
    ensures
        qualifier_in(chunk, season) is Some <==> link_target(chunk) is Some && dts_in(chunk, season) is Some
            && url_in(chunk) is Some && has(chunk, "align=left"@),
        qualifier_in(chunk, season) matches Some(q) ==> link_target(chunk) == Some(q.player_code)
            && dts_in(chunk, season) == Some(q.qualified_on) && url_in(chunk) == Some(q.source_url),
{
}

/// The announcements of an article are those of the first sortable table behind
/// the heading of the singles, whatever stands in front of that heading.
pub proof fn announcements_stand_behind_the_singles_heading(
    front: Seq<char>,
    behind: Seq<char>,
    season: i32,
)
    requires
        free_of(front, '='),
    ensures
        qualifiers_in(front + "=== Singles ==="@ + behind, season) == qualifiers_in(
            "=== Singles ==="@ + behind,
            season,
        ),
{
    reveal_strlit("=== Singles ===");
    let heading = "=== Singles ==="@;
    cut_behind(front, heading, behind);
    cut_behind(seq![], heading, behind);
    let all = front + heading + behind;
    let short = heading + behind;
    assert(seq![] + heading + behind =~= short);
    assert(all.subrange(front.len() as int, all.len() as int) =~= short);
    assert(short.subrange(0, short.len() as int) =~= short);
}

/// The rows of a qualifier table are read one after the other.
pub proof fn announcements_keep_the_tables_order(
    a: Seq<Seq<char>>,
    b: Seq<Seq<char>>,
    season: i32,
)
    ensures
        qualifiers_of(a + b, season) == qualifiers_of(a, season) + qualifiers_of(b, season),
    decreases b.len(),
{
    if b.len() == 0 {
        assert(a + b =~= a);
        assert(qualifiers_of(a, season) + qualifiers_of(b, season) =~= qualifiers_of(a, season));
    } else {
        announcements_keep_the_tables_order(a, b.drop_last(), season);
        assert((a + b).drop_last() =~= a + b.drop_last());
        assert((a + b).last() == b.last());
        assert(qualifiers_of(a + b, season) =~= qualifiers_of(a, season) + qualifiers_of(
            b,
            season,
        ));
    }
}

/// The date of the standings is the year, the month and the day of the first
/// `as of` template, whatever follows them in it, at the start of that day, UTC.
pub proof fn the_date_of_the_standings_is_read(
    a: Seq<char>,
    date: CalendarDate,
    more: Seq<char>,
    b: Seq<char>,
)
    requires
        free_of(a, '{'),
        date.year >= 0,
        1 <= date.month <= 12,
        free_of(more, '}'),
        more.len() > 0 ==> more[0] == '|',
    ensures
        ({
            let text = a + "{{as of|"@ + decimal(date.year as nat) + "|"@ + decimal(
                date.month as nat,
            ) + "|"@ + decimal(date.day as nat) + more + "}}"@ + b;
            &&& date.valid() ==> as_of_in(text) == Ok::<Timestamp, ErrorModel>(
                Timestamp {
                    year: date.year,
                    month: date.month,
                    day: date.day,
                    hour: 0,
                    minute: 0,
                    second: 0,
                    nanosecond: 0,
                    offset_seconds: 0,
                },
            )
            &&& !date.valid() ==> as_of_in(text) is Err
        }),
{
    reveal_strlit("{{as of|");
    reveal_strlit("}}");
    let y = decimal(date.year as nat);
    let m = decimal(date.month as nat);
    let d = decimal(date.day as nat);
    let open = "{{as of|"@;
    let inner = y + "|"@ + m + "|"@ + d + more;
    let text = a + open + y + "|"@ + m + "|"@ + d + more + "}}"@ + b;
    assert(text =~= a + open + (inner + "}}"@ + b));
    cut_behind(a, open, inner + "}}"@ + b);
    decimals_read_back(date.year as nat);
    decimals_read_back(date.month as nat);
    decimals_read_back(date.day as nat);
    three_parts_are_split(y, m, d, more);
    cut_behind(inner, "}}"@, b);
    digits_hold_no_marks(y);
    digits_hold_no_marks(m);
    digits_hold_no_marks(d);
    bare_text_is_kept(y);
    bare_text_is_kept(m);
    bare_text_is_kept(d);
    let parts = split_on(inner, "|"@);
    assert(as_of_in(text) == as_of_parts(parts));
    as_of_parts_are_read(parts, date);
}

proof fn as_of_parts_are_read(parts: Seq<Seq<char>>, date: CalendarDate)
    requires
        parts.len() >= 3,
        date.year >= 0,
        1 <= date.month <= 12,
        trimmed(parts[0]) == decimal(date.year as nat),
        trimmed(parts[1]) == decimal(date.month as nat),
        trimmed(parts[2]) == decimal(date.day as nat),
    ensures
        date.valid() ==> as_of_parts(parts) == Ok::<Timestamp, ErrorModel>(
            Timestamp {
                year: date.year,
                month: date.month,
                day: date.day,
                hour: 0,
                minute: 0,
                second: 0,
                nanosecond: 0,
                offset_seconds: 0,
            },
        ),
        !date.valid() ==> as_of_parts(parts) is Err,
{
    decimals_read_back(date.year as nat);
    decimals_read_back(date.month as nat);
    decimals_read_back(date.day as nat);
    digits_hold_no_marks(decimal(date.year as nat));
    digits_hold_no_marks(decimal(date.month as nat));
    digits_hold_no_marks(decimal(date.day as nat));
}

/// Three runs of digits apart by pipes are the first three parts.
proof fn three_parts_are_split(y: Seq<char>, m: Seq<char>, d: Seq<char>, more: Seq<char>)
    requires
        all_digits(y),
        all_digits(m),
        all_digits(d),
        free_of(more, '}'),
        more.len() > 0 ==> more[0] == '|',
    ensures
        free_of(y + "|"@ + m + "|"@ + d + more, '}'),
        ({
            let parts = split_on(y + "|"@ + m + "|"@ + d + more, "|"@);
            parts.len() >= 3 && parts[0] == y && parts[1] == m && parts[2] == d
        }),
{
    reveal_strlit("|");
    let bar = "|"@;
    let inner = y + bar + m + bar + d + more;
    digits_hold_no_marks(y);
    digits_hold_no_marks(m);
    digits_hold_no_marks(d);
    let p = y.len() as int;
    let q = p + 1 + m.len();
    let r = q + 1 + d.len();
    assert forall|i: int| 0 <= i < inner.len() implies #[trigger] inner[i] != '}' by {
        if i < p {
            assert(inner[i] == y[i]);
        } else if i == p {
            assert(inner[i] == '|');
        } else if i < q {
            assert(inner[i] == m[i - p - 1]);
        } else if i == q {
            assert(inner[i] == '|');
        } else if i < r {
            assert(inner[i] == d[i - q - 1]);
        } else {
            assert(inner[i] == more[i - r]);
        }
    }
    let after_month = d + more;
    let after_year = m + bar + after_month;
    assert(inner =~= y + bar + after_year);
    cut_behind(y, bar, after_year);
    cut_behind(m, bar, after_month);
    let tail = split_on(after_month, bar);
    assert(tail.len() >= 1 && tail[0] == d) by {
        if more.len() > 0 {
            let rest = more.subrange(1, more.len() as int);
            assert(after_month =~= d + bar + rest);
            cut_behind(d, bar, rest);
        } else {
            assert(after_month =~= d);
            lacks(d, bar, 0);
        }
    }
    assert(split_on(after_year, bar) == seq![m] + tail);
    assert(split_on(inner, bar) == seq![y] + (seq![m] + tail));
}

proof fn digits_hold_no_marks(s: Seq<char>)
    requires
        all_digits(s),
    ensures
        free_of(s, '}'),
        free_of(s, '|'),
        s.len() > 0 ==> !is_space(s[0]) && !is_space(s.last()) && s[0] != '+' && s[0] != '-',
{
    assert forall|i: int| 0 <= i < s.len() implies #[trigger] s[i] != '}' && s[i] != '|' by {
        assert(is_digit(s[i]));
    }
    if s.len() > 0 {
        assert(is_digit(s[0]));
        assert(is_digit(s[s.len() - 1]));
    }
}

/// An article without an `as of` template has no date.
pub proof fn no_template_no_date(text: Seq<char>)
    requires
        !(has(text, "{{as of|"@)),
    ensures
        as_of_in(text) == Err::<Timestamp, ErrorModel>(ErrorModel::NoAsOf),
{
}

} // verus!
