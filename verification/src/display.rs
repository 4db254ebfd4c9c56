//! What a reader finds on the pages, said of the rows, results and moments that
//! the pages are made from.

use vstd::prelude::*;

use crate::calendar::date_text;
use crate::model::{counting, Played, QualifierModel, ResultModel, RowModel, Slot, SnapshotModel};
use crate::parser::points_of;
use crate::qualification::{Provisional, SeatBasis, SelectionModel};
use crate::reading::a_line_feed_ends_a_line;
use crate::text::{
    decimal, decimal_int, decimals_read_back, digit_char, is_digit, joined, lines_of, position_of,
    replaced,
};
use crate::web::{
    age_text, article_address, basis_text, counted, displayed_points_read_back, eighth_text,
    grouped, headline_text, health_lines, ledger_of, line_groups, name_from, name_of, name_or_dash,
    officials_text, preview_text, result_line, signed_grouped, table_view, top_seven_names,
    with_line, GroupModel, LineModel,
};

verus! {

// ---------------------------------------------------------------------------
// Numbers
// ---------------------------------------------------------------------------

/// A displayed number has a comma in front of every third digit from the right,
/// digits everywhere else, and no comma at its front.
pub proof fn commas_stand_before_every_third_digit(n: nat)
    ensures
        grouped(n).len() > 0,
        grouped(n).len() % 4 != 0,
        forall|i: int|
            0 <= i < grouped(n).len() ==> (#[trigger] grouped(n)[i] == ',' <==> (grouped(n).len()
                - i) % 4 == 0),
        forall|i: int|
            0 <= i < grouped(n).len() && (grouped(n).len() - i) % 4 != 0 ==> is_digit(
                #[trigger] grouped(n)[i],
            ),
    decreases n,
{
    if n < 1000 {
        decimals_read_back(n);
        short_numbers(n);
        let d = decimal(n);
        assert forall|i: int| 0 <= i < d.len() implies #[trigger] d[i] != ',' by {
            assert(is_digit(d[i]));
        }
    } else {
        commas_stand_before_every_third_digit(n / 1000);
        let g = grouped(n / 1000);
        let all = grouped(n);
        assert(all.len() == g.len() + 4);
        assert forall|i: int| 0 <= i < all.len() implies (#[trigger] all[i] == ',' <==> (all.len()
            - i) % 4 == 0) && ((all.len() - i) % 4 != 0 ==> is_digit(all[i])) by {
            if i < g.len() {
                assert(all[i] == g[i]);
                assert((all.len() - i) % 4 == (g.len() - i) % 4);
            } else if i == g.len() {
                assert(all[i] == ',');
            } else if i == g.len() + 1 {
                assert(all[i] == digit_char(n % 1000 / 100));
            } else if i == g.len() + 2 {
                assert(all[i] == digit_char(n % 100 / 10));
            } else {
                assert(all[i] == digit_char(n % 10));
            }
        }
    }
}

proof fn short_numbers(n: nat)
    requires
        n < 1000,
    ensures
        1 <= decimal(n).len() <= 3,
{
    reveal_with_fuel(decimal, 3);
}

/// A margin is displayed with its sign, a plus where it is not negative, and the
/// rest reads back as its size.
pub proof fn margins_read_back(n: i64)
    requires
        -(u32::MAX as int) <= n <= u32::MAX,
    ensures
        signed_grouped(n).len() > 1,
        signed_grouped(n)[0] == (if n >= 0 {
            '+'
        } else {
            '-'
        }),
        n >= 0 ==> points_of(signed_grouped(n).skip(1)) == Some(n as nat),
        n < 0 ==> points_of(signed_grouped(n).skip(1)) == Some((-n) as nat),
{
    reveal_strlit("+");
    reveal_strlit("-");
    let size = (if n < 0 {
        -n
    } else {
        n as int
    }) as u32;
    displayed_points_read_back(size);
    commas_stand_before_every_third_digit(size as nat);
    assert(signed_grouped(n).skip(1) =~= grouped(size as nat));
}

/// Ages below ninety seconds are in seconds, below ninety minutes in minutes,
/// below two days in hours, and from there in days, always rounded down; an age
/// in the future is none.
pub proof fn ages_are_rounded_down_to_a_unit(seconds: int)
    ensures
        seconds < 0 ==> age_text(seconds) == "0 s"@,
        0 <= seconds < 90 ==> age_text(seconds) == decimal(seconds as nat) + " s"@,
        90 <= seconds < 5_400 ==> exists|n: nat|
            #![trigger decimal(n)]
            n * 60 <= seconds < n * 60 + 60 && age_text(seconds) == decimal(n) + " min"@,
        5_400 <= seconds < 172_800 ==> exists|n: nat|
            #![trigger decimal(n)]
            n * 3_600 <= seconds < n * 3_600 + 3_600 && age_text(seconds) == decimal(n) + " h"@,
        172_800 <= seconds ==> exists|n: nat|
            #![trigger decimal(n)]
            n * 86_400 <= seconds < n * 86_400 + 86_400 && age_text(seconds) == decimal(n)
                + " days"@,
{
    if 90 <= seconds < 5_400 {
        let n = (seconds / 60) as nat;
        assert(n * 60 <= seconds < n * 60 + 60 && age_text(seconds) == decimal(n) + " min"@);
    } else if 5_400 <= seconds < 172_800 {
        let n = (seconds / 3_600) as nat;
        assert(n * 3_600 <= seconds < n * 3_600 + 3_600 && age_text(seconds) == decimal(n)
            + " h"@);
    } else if 172_800 <= seconds {
        let n = (seconds / 86_400) as nat;
        assert(n * 86_400 <= seconds < n * 86_400 + 86_400 && age_text(seconds) == decimal(n)
            + " days"@);
    }
}

/// One of a kind is counted in the singular, any other number in the plural.
pub proof fn counts_agree_in_number(n: u32, singular: Seq<char>)
    ensures
        n == 1 ==> counted(n, singular) == "1 "@ + singular,
        n != 1 ==> counted(n, singular) == decimal(n as nat) + " "@ + singular + "s"@,
{
}

// ---------------------------------------------------------------------------
// Addresses
// ---------------------------------------------------------------------------

/// Replacing one character by another keeps every other where it stands.
proof fn one_for_one(s: Seq<char>, from: char, to: char)
    ensures
        replaced(s, seq![from], seq![to]).len() == s.len(),
        forall|i: int|
            0 <= i < s.len() ==> #[trigger] replaced(s, seq![from], seq![to])[i] == (if s[i]
                == from {
                to
            } else {
                s[i]
            }),
    decreases s.len(),
{
    let pat = seq![from];
    crate::text::position_from_is_first(s, pat, 0);
    match position_of(s, pat) {
        Some(k) => {
            let head = s.subrange(0, k);
            let tail = s.subrange(k + 1, s.len() as int);
            one_for_one(tail, from, to);
            let r = replaced(s, pat, seq![to]);
            assert(r == head + seq![to] + replaced(tail, pat, seq![to]));
            assert(s.subrange(k, k + 1)[0] == s[k]);
            assert forall|i: int| 0 <= i < s.len() implies #[trigger] r[i] == (if s[i] == from {
                to
            } else {
                s[i]
            }) by {
                if i < k {
                    if s[i] == from {
                        assert(s.subrange(i, i + 1) =~= pat);
                        assert(crate::text::occurs_at(s, pat, i));
                    }
                } else if i > k {
                    assert(tail[i - k - 1] == s[i]);
                }
            }
        },
        None => {
            assert forall|i: int| 0 <= i < s.len() implies s[i] != from by {
                if s[i] == from {
                    assert(s.subrange(i, i + 1) =~= pat);
                    assert(crate::text::occurs_at(s, pat, i));
                }
            }
        },
    }
}

/// An article's address is the site's, then the title with an underscore for
/// each space and every other character as it is.
pub proof fn an_address_spells_the_title(title: Seq<char>)
    ensures
        ({
            let site = "https://en.wikipedia.org/wiki/"@;
            let url = article_address(title);
            &&& url.len() == site.len() + title.len()
            &&& url.take(site.len() as int) == site
            &&& forall|i: int|
                0 <= i < title.len() ==> #[trigger] url[site.len() + i] == (if title[i] == ' ' {
                    '_'
                } else {
                    title[i]
                })
        }),
{
    reveal_strlit(" ");
    reveal_strlit("_");
    assert(" "@ =~= seq![' ']);
    assert("_"@ =~= seq!['_']);
    one_for_one(title, ' ', '_');
    let site = "https://en.wikipedia.org/wiki/"@;
    let url = article_address(title);
    assert(url.take(site.len() as int) =~= site);
    assert forall|i: int| 0 <= i < title.len() implies #[trigger] url[site.len() + i] == (if title[i]
        == ' ' {
        '_'
    } else {
        title[i]
    }) by {
        assert(url[site.len() + i] == replaced(title, " "@, "_"@)[i]);
    }
}

// ---------------------------------------------------------------------------
// The breakdown
// ---------------------------------------------------------------------------

/// The lines of a breakdown from top to bottom, each with the heading it stands
/// under.
pub open spec fn lines_under(groups: Seq<GroupModel>) -> Seq<(Seq<char>, LineModel)>
    decreases groups.len(),
{
    if groups.len() == 0 {
        seq![]
    } else {
        lines_under(groups.drop_last()) + groups.last().results.map_values(
            |l: LineModel| (groups.last().title, l),
        )
    }
}

proof fn a_line_is_added_last(groups: Seq<GroupModel>, title: Seq<char>, line: LineModel)
    ensures
        lines_under(with_line(groups, title, line)) == lines_under(groups).push((title, line)),
{
    let now = with_line(groups, title, line);
    if groups.len() > 0 && groups.last().title == title {
        assert(now.drop_last() =~= groups.drop_last());
        assert(now.last().title == title);
        assert(lines_under(now) =~= lines_under(groups).push((title, line)));
    } else {
        assert(now.drop_last() =~= groups);
        assert(lines_under(now) =~= lines_under(groups).push((title, line)));
    }
}

proof fn lines_follow_results(results: Seq<ResultModel>)
    ensures
        lines_under(line_groups(results)).len() == results.len(),
        forall|i: int|
            0 <= i < results.len() ==> #[trigger] lines_under(line_groups(results))[i] == (
                crate::model::slot_title(results[i].slot),
                result_line(results[i]),
            ),
    decreases results.len(),
{
    if results.len() > 0 {
        let front = results.drop_last();
        lines_follow_results(front);
        a_line_is_added_last(
            line_groups(front),
            crate::model::slot_title(results.last().slot),
            result_line(results.last()),
        );
        let before = lines_under(line_groups(front));
        let now = lines_under(line_groups(results));
        assert forall|i: int| 0 <= i < results.len() implies #[trigger] now[i] == (
            crate::model::slot_title(results[i].slot),
            result_line(results[i]),
        ) by {
            if i < front.len() {
                assert(now[i] == before[i]);
                assert(front[i] == results[i]);
            }
        }
    }
}

/// A ledger is displayed result by result, in its order and each under the
/// heading of its block. A result that was played names the column's event,
/// unless it stands in for that event or the column has none: then it names the
/// event played, so that no played result with a name goes without one. It links
/// to that event's article, gives the round and the points, and says which event
/// it stands in for. An event skipped counts zero and one not held yet counts
/// nothing, and both go by the column's event.
pub proof fn every_result_has_its_line(row: RowModel, i: int)
    requires
        0 <= i < row.results.len(),
    ensures
        ledger_of(row) matches Some(ledger) && ({
            let lines = lines_under(ledger.groups);
            let (heading, line) = lines[i];
            let r = row.results[i];
            &&& lines.len() == row.results.len()
            &&& r.slot == Slot::GrandSlam ==> heading == "Grand Slam"@
            &&& r.slot == Slot::Mandatory1000 ==> heading == "Masters 1000 (mandatory)"@
            &&& r.slot == Slot::BestOther ==> heading == "Best other"@
            &&& r.played == Played::Result ==> {
                &&& !r.substituted && r.slot_label.len() > 0 ==> line.event == r.slot_label
                &&& r.substituted || r.slot_label.len() == 0 ==> line.event == r.event_name
                &&& r.event_name.len() > 0 ==> line.event.len() > 0
                &&& line.event_url == Some(article_address(r.event_code))
                &&& line.round == r.round
                &&& points_of(line.points) == Some(r.points as nat)
                &&& r.substituted && r.slot_label.len() > 0 ==> line.qualifier == "for "@
                    + r.slot_label
                &&& !r.substituted || r.slot_label.len() == 0 ==> line.qualifier.len() == 0
                &&& line.sr_note.len() == 0
                &&& r.substituted ==> line.class == "sub"@
                &&& !r.substituted ==> line.class.len() == 0
            }
            &&& r.played == Played::Absent ==> {
                &&& line.event == r.slot_label
                &&& line.event_url is None
                &&& line.round == "A"@
                &&& line.points == "0"@
                &&& line.qualifier.len() == 0
                &&& line.sr_note == "did not play"@
                &&& line.class == "absent"@
            }
            &&& r.played == Played::Pending ==> {
                &&& line.event == r.slot_label
                &&& line.event_url is None
                &&& line.round == "–"@
                &&& line.points == "–"@
                &&& line.qualifier.len() == 0
                &&& line.sr_note == "not played yet"@
                &&& line.class == "pending"@
            }
        }),
{
    lines_follow_results(row.results);
    displayed_points_read_back(row.results[i].points);
    assert(lines_under(line_groups(row.results))[i] == (
        crate::model::slot_title(row.results[i].slot),
        result_line(row.results[i]),
    ));
}

proof fn blocks_are_not_broken(results: Seq<ResultModel>)
    ensures
        forall|g: int|
            0 <= g < line_groups(results).len() ==> (#[trigger] line_groups(
                results,
            )[g]).results.len() > 0,
        forall|g: int|
            0 < g < line_groups(results).len() ==> (#[trigger] line_groups(results)[g]).title
                != line_groups(results)[g - 1].title,
    decreases results.len(),
{
    if results.len() > 0 {
        blocks_are_not_broken(results.drop_last());
        let before = line_groups(results.drop_last());
        let now = line_groups(results);
        assert forall|g: int| 0 <= g < now.len() implies (#[trigger] now[g]).results.len() > 0 && (g
            > 0 ==> now[g].title != now[g - 1].title) by {
            if g < before.len() {
                assert(before[g].results.len() > 0);
                assert(now[g].title == before[g].title);
                if g > 0 {
                    assert(now[g - 1].title == before[g - 1].title);
                }
            }
        }
    }
}

/// A breakdown has no empty group, and no two groups in a row under the same
/// heading.
pub proof fn each_block_is_one_group(row: RowModel)
    ensures
        ledger_of(row) matches Some(ledger) ==> {
            &&& forall|g: int|
                0 <= g < ledger.groups.len() ==> (#[trigger] ledger.groups[g]).results.len() > 0
            &&& forall|g: int|
                0 < g < ledger.groups.len() ==> (#[trigger] ledger.groups[g]).title
                    != ledger.groups[g - 1].title
        },
{
    blocks_are_not_broken(row.results);
}

/// The results that count are those that were played.
pub proof fn played_results_count(results: Seq<ResultModel>)
    ensures
        counting(results) == results.filter(|r: ResultModel| r.played == Played::Result).len(),
    decreases results.len(),
{
    reveal(Seq::filter);
    if results.len() > 0 {
        played_results_count(results.drop_last());
    }
}

/// The headline of a breakdown says how many results were played of how many
/// tournaments entered, where the source says so and it is no fewer, and how
/// many titles were won, where the source says so.
pub proof fn the_headline_counts_results_and_titles(row: RowModel)
    requires
        row.results.len() > 0,
        row.results.len() <= u32::MAX,
    ensures
        ({
            let n = row.results.filter(|r: ResultModel| r.played == Played::Result).len();
            let opening = match row.tournaments_played {
                Some(entered) => if entered >= n {
                    decimal(n) + " of "@ + decimal(entered as nat) + " tournaments count"@
                } else if n == 1 {
                    "1 counting result"@
                } else {
                    decimal(n) + " counting results"@
                },
                None => if n == 1 {
                    "1 counting result"@
                } else {
                    decimal(n) + " counting results"@
                },
            };
            ledger_of(row) matches Some(ledger) && ledger.headline == opening + (match row.titles {
                None => ""@,
                Some(t) => if t == 0 {
                    " · no titles"@
                } else if t == 1 {
                    " · 1 title"@
                } else {
                    " · "@ + decimal(t as nat) + " titles"@
                },
            })
        }),
{
    played_results_count(row.results);
    let keep = |r: ResultModel| r.played == Played::Result;
    let n = row.results.filter(keep).len();
    row.results.lemma_filter_len(keep);
    words_of_the_headline();
    let h = headline_text(row);
    assert(counting(row.results) == n);
    assert((n as u32) == n);
    if let Some(t) = row.titles {
        assert(" · "@ + (decimal(t as nat) + " "@ + "title"@ + "s"@) =~= " · "@ + decimal(t as nat)
            + " titles"@);
    }
    assert(decimal(n) + " "@ + "counting result"@ + "s"@ =~= decimal(n) + " counting results"@);
}

proof fn words_of_the_headline()
    ensures
        "1 "@ + "counting result"@ == "1 counting result"@,
        " "@ + "counting result"@ + "s"@ == " counting results"@,
        " · "@ + "no titles"@ == " · no titles"@,
        " · "@ + ("1 "@ + "title"@) == " · 1 title"@,
        " "@ + "title"@ + "s"@ == " titles"@,
        ""@ == Seq::<char>::empty(),
{
    reveal_strlit("1 ");
    reveal_strlit("counting result");
    reveal_strlit("1 counting result");
    reveal_strlit(" ");
    reveal_strlit("s");
    reveal_strlit(" counting results");
    reveal_strlit(" · ");
    reveal_strlit("no titles");
    reveal_strlit(" · no titles");
    reveal_strlit("title");
    reveal_strlit(" · 1 title");
    reveal_strlit(" titles");
    reveal_strlit("");
    assert("1 "@ + "counting result"@ =~= "1 counting result"@);
    assert(" "@ + "counting result"@ + "s"@ =~= " counting results"@);
    assert(" · "@ + "no titles"@ =~= " · no titles"@);
    assert(" · "@ + ("1 "@ + "title"@) =~= " · 1 title"@);
    assert(" "@ + "title"@ + "s"@ =~= " titles"@);
    assert(""@ =~= Seq::<char>::empty());
}

/// A breakdown names its player, and has a note on substitutions exactly when
/// one of its results stands in for a mandatory event.
pub proof fn a_breakdown_names_its_player(row: RowModel)
    ensures
        row.results.len() == 0 <==> ledger_of(row) is None,
        ledger_of(row) matches Some(ledger) ==> {
            &&& ledger.sr_intro == "Points breakdown for "@ + row.player_name + ": "@
            &&& ledger.substitution_note.len() > 0 <==> exists|i: int|
                0 <= i < row.results.len() && (#[trigger] row.results[i]).substituted
        },
{
    reveal_strlit(
        "Italicised results were counted in place of a mandatory Masters 1000, which the rulebook allows for up to three of them.",
    );
}

// ---------------------------------------------------------------------------
// The table
// ---------------------------------------------------------------------------

/// A row of the page shows the rank, the player, the country and the points of
/// the row of the table that it is made from; places gained point up and places
/// lost point down, by their number; its status is the player's seat, its margin
/// the player's, and it is marked official exactly when a qualification of the
/// player has been announced.
pub proof fn a_row_shows_what_it_is_made_from(
    s: SnapshotModel,
    selection: SelectionModel,
    ids: Map<Seq<char>, Seq<char>>,
    i: int,
)
    requires
        0 <= i < s.rows.len(),
    ensures
        ({
            let row = s.rows[i];
            let view = table_view(s, selection, ids)[i];
            let seat = selection.state(row.player_code);
            let slam = selection.eighth_basis == SeatBasis::GrandSlamChampion;
            &&& table_view(s, selection, ids).len() == s.rows.len()
            &&& view.rank == row.rank
            &&& view.name == row.player_name
            &&& view.country == row.country
            &&& points_of(view.points) == Some(row.race_points as nat)
            &&& view.ledger == ledger_of(row)
            &&& view.official <==> exists|q: int|
                0 <= q < s.qualifiers.len() && (#[trigger] s.qualifiers[q]).player_code
                    == row.player_code
            &&& row.movement matches Some(m) ==> {
                &&& m > 0 ==> view.movement == "▲"@ + decimal(m as nat) && view.movement_class
                    == "up"@ && view.movement_sr == "up "@ + decimal(m as nat) + " places"@
                &&& m < 0 ==> view.movement == "▼"@ + decimal((-m) as nat) && view.movement_class
                    == "down"@ && view.movement_sr == "down "@ + decimal((-m) as nat) + " places"@
                &&& m == 0 ==> view.movement == "·"@ && view.movement_class == "flat"@
                    && view.movement_sr == "no change since last update"@
            }
            &&& row.movement is None ==> view.movement == "–"@ && view.movement_class == "flat"@
                && view.movement_sr == "no previous snapshot"@
            &&& seat == Provisional::TopSeven ==> view.status_label == "Top 7"@
                && view.status_class == "in"@
            &&& seat == Provisional::Eighth && slam ==> view.status_label
                == "8th seat · Slam rule"@ && view.status_class == "slam"@
            &&& seat == Provisional::Eighth && !slam ==> view.status_label == "8th seat"@
                && view.status_class == "in"@
            &&& seat == Provisional::FirstAlternate ==> view.status_label == "First alternate"@
                && view.status_class == "alt"@
            &&& seat == Provisional::Withdrawn ==> view.status_label == "Withdrawn"@
                && view.status_class == "out"@
            &&& seat == Provisional::NotSelected ==> view.status_label.len() == 0
                && view.status_class.len() == 0
            &&& selection.margin(row.player_code) matches Some(m) ==> view.margin
                == signed_grouped(m) && view.margin_class == (if m >= 0 {
                "pos"@
            } else {
                "neg"@
            })
            &&& selection.margin(row.player_code) is None ==> view.margin == "–"@
                && view.margin_class.len() == 0
        }),
{
    displayed_points_read_back(s.rows[i].race_points);
}

/// A name links to the profile with the player's id, and to nothing where there
/// is no id.
pub proof fn names_link_to_profiles_by_id(
    s: SnapshotModel,
    selection: SelectionModel,
    ids: Map<Seq<char>, Seq<char>>,
    i: int,
)
    requires
        0 <= i < s.rows.len(),
    ensures
        ({
            let code = s.rows[i].player_code;
            let url = table_view(s, selection, ids)[i].profile_url;
            &&& ids.contains_key(code) ==> url == Some(
                "https://www.atptour.com/en/players/-/"@ + ids[code] + "/overview"@,
            )
            &&& !ids.contains_key(code) ==> url is None
        }),
{
}

/// The strong line is drawn under the seventh row, exactly when the first seven
/// rows hold the first seven seats and an eighth row follows; the ordinary line
/// under the eighth row, when moreover that row holds seat 8 and does so by race
/// rank. No other row has a line under it.
pub proof fn lines_are_drawn_where_the_seats_end(
    s: SnapshotModel,
    selection: SelectionModel,
    ids: Map<Seq<char>, Seq<char>>,
    i: int,
)
    requires
        0 <= i < s.rows.len(),
    ensures
        ({
            let view = table_view(s, selection, ids)[i];
            let seven = s.rows.len() >= 8 && forall|k: int|
                0 <= k < 7 ==> selection.state((#[trigger] s.rows[k]).player_code)
                    == Provisional::TopSeven;
            &&& view.cut_strong_after <==> i == 6 && seven
            &&& view.cut_ordinary_after <==> i == 7 && seven && selection.eighth_basis
                == SeatBasis::RaceRank && selection.state(s.rows[i].player_code)
                == Provisional::Eighth
        }),
{
}

/// The classes of a row say whether it expands and which seat it has.
pub proof fn classes_say_what_a_row_is(
    s: SnapshotModel,
    selection: SelectionModel,
    ids: Map<Seq<char>, Seq<char>>,
    i: int,
)
    requires
        0 <= i < s.rows.len(),
    ensures
        ({
            let view = table_view(s, selection, ids)[i];
            let seat = selection.state(s.rows[i].player_code);
            let slam = selection.eighth_basis == SeatBasis::GrandSlamChampion;
            let word = if seat == Provisional::TopSeven {
                "selected"@
            } else if seat == Provisional::Eighth {
                if slam {
                    "selected slam-pick"@
                } else {
                    "selected"@
                }
            } else if seat == Provisional::FirstAlternate {
                "alternate"@
            } else if seat == Provisional::Withdrawn {
                "withdrawn"@
            } else {
                ""@
            };
            view.row_class == (if s.rows[i].results.len() == 0 {
                word
            } else if seat == Provisional::NotSelected {
                "has-ledger"@
            } else {
                "has-ledger "@ + word
            })
        }),
{
    reveal_with_fuel(joined, 4);
    reveal_strlit("");
    reveal_strlit(" ");
    reveal_strlit("has-ledger");
    reveal_strlit("has-ledger ");
    reveal_strlit("selected");
    reveal_strlit("slam-pick");
    reveal_strlit("selected slam-pick");
    assert("has-ledger"@ + " "@ =~= "has-ledger "@);
    assert("selected"@ + " "@ + "slam-pick"@ =~= "selected slam-pick"@);
    let ledger = s.rows[i].results.len() > 0;
    let seat = selection.state(s.rows[i].player_code);
    let slam = selection.eighth_basis == SeatBasis::GrandSlamChampion;
    let base = if ledger {
        seq!["has-ledger"@]
    } else {
        seq![]
    };
    let none = Seq::<Seq<char>>::empty();
    assert(""@ =~= Seq::<char>::empty());
    assert(base.push("selected"@).drop_last() =~= base);
    assert(base.push("selected"@).push("slam-pick"@).drop_last() =~= base.push("selected"@));
    assert(base.push("alternate"@).drop_last() =~= base);
    assert(base.push("withdrawn"@).drop_last() =~= base);
    if ledger {
        assert("has-ledger"@ + " "@ + "selected"@ + " "@ + "slam-pick"@ =~= "has-ledger "@
            + "selected slam-pick"@);
    }
}

// ---------------------------------------------------------------------------
// The summary
// ---------------------------------------------------------------------------

/// A code goes by the name in the first row that has it, and where no row does
/// by itself.
pub proof fn a_code_goes_by_its_row(rows: Seq<RowModel>, code: Seq<char>, i: int)
    ensures
        0 <= i < rows.len() && rows[i].player_code == code && (forall|k: int|
            0 <= k < i ==> (#[trigger] rows[k]).player_code != code) ==> name_of(rows, code)
            == rows[i].player_name,
        (forall|k: int| 0 <= k < rows.len() ==> (#[trigger] rows[k]).player_code != code)
            ==> name_of(rows, code) == code,
{
    if 0 <= i < rows.len() && rows[i].player_code == code && (forall|k: int|
        0 <= k < i ==> (#[trigger] rows[k]).player_code != code) {
        name_found(rows, code, 0, i);
    }
    if forall|k: int| 0 <= k < rows.len() ==> (#[trigger] rows[k]).player_code != code {
        name_not_found(rows, code, 0);
    }
}

proof fn name_found(rows: Seq<RowModel>, code: Seq<char>, from: int, i: int)
    requires
        0 <= from <= i < rows.len(),
        rows[i].player_code == code,
        forall|k: int| 0 <= k < i ==> (#[trigger] rows[k]).player_code != code,
    ensures
        name_from(rows, code, from) == rows[i].player_name,
    decreases i - from,
{
    if from < i {
        assert(rows[from].player_code != code);
        name_found(rows, code, from + 1, i);
    }
}

proof fn name_not_found(rows: Seq<RowModel>, code: Seq<char>, from: int)
    requires
        0 <= from,
        forall|k: int| 0 <= k < rows.len() ==> (#[trigger] rows[k]).player_code != code,
    ensures
        name_from(rows, code, from) == code,
    decreases rows.len() - from,
{
    if from < rows.len() {
        assert(rows[from].player_code != code);
        name_not_found(rows, code, from + 1);
    }
}

/// The announced qualifications are listed with name and date, in their order,
/// and where there is none the page says so.
pub proof fn announcements_are_listed_with_their_dates(s: SnapshotModel)
    ensures
        s.qualifiers.len() == 0 ==> officials_text(s) == "None announced yet"@,
        s.qualifiers.len() > 0 ==> officials_text(s) == joined(
            Seq::new(
                s.qualifiers.len(),
                |i: int|
                    name_of(s.rows, s.qualifiers[i].player_code) + " ("@ + date_text(
                        s.qualifiers[i].qualified_on,
                    ) + ")"@,
            ),
            ", "@,
        ),
{
    let listed = Seq::new(
        s.qualifiers.len(),
        |i: int|
            name_of(s.rows, s.qualifiers[i].player_code) + " ("@ + date_text(
                s.qualifiers[i].qualified_on,
            ) + ")"@,
    );
    if s.qualifiers.len() > 0 {
        let shown = s.qualifiers.map_values(
            |q: QualifierModel| crate::web::official_text(s.rows, q),
        );
        assert(shown =~= listed);
    }
}

/// The top seven are listed by name in the table's order, and nobody else.
pub proof fn the_top_seven_are_listed_in_table_order(
    rows: Seq<RowModel>,
    selection: SelectionModel,
)
    ensures
        top_seven_names(rows, selection) == rows.filter(
            |r: RowModel| selection.state(r.player_code) == Provisional::TopSeven,
        ).map_values(|r: RowModel| r.player_name),
    decreases rows.len(),
{
    reveal(Seq::filter);
    let keep = |r: RowModel| selection.state(r.player_code) == Provisional::TopSeven;
    let name = |r: RowModel| r.player_name;
    if rows.len() > 0 {
        the_top_seven_are_listed_in_table_order(rows.drop_last(), selection);
        assert(top_seven_names(rows, selection) =~= rows.filter(keep).map_values(name));
    } else {
        assert(top_seven_names(rows, selection) =~= rows.filter(keep).map_values(name));
    }
}

/// Seat 8 is said to go to its holder, and by the rule that gave it.
pub proof fn seat_eight_is_explained_by_its_rule(
    rows: Seq<RowModel>,
    selection: SelectionModel,
    season: u16,
)
    ensures
        selection.eighth_code is None ==> eighth_text(rows, selection) == "—"@ && basis_text(
            rows,
            selection,
            season,
        ) == ""@,
        selection.eighth_code matches Some(code) ==> {
            &&& selection.eighth_basis == SeatBasis::GrandSlamChampion ==> eighth_text(
                rows,
                selection,
            ) == name_of(rows, code) + " — Grand Slam champion provision"@
            &&& selection.eighth_basis == SeatBasis::RaceRank ==> eighth_text(rows, selection)
                == name_of(rows, code) + " — by race rank"@
            &&& selection.eighth_basis == SeatBasis::GrandSlamChampion ==> basis_text(
                rows,
                selection,
                season,
            ) == "Seat 8 goes to "@ + name_of(rows, code) + " as a "@ + decimal(season as nat)
                + " Grand Slam champion ranked 8–20, not to the player ranked 8 in the race. There is no ordinary 8/9 cutoff this week, so points margins to a single line are not shown."@
            &&& selection.eighth_basis == SeatBasis::RaceRank ==> basis_text(
                rows,
                selection,
                season,
            ) == "Seat 8 goes to "@ + name_of(rows, code) + " by race rank: no eligible "@
                + decimal(season as nat)
                + " Grand Slam champion is ranked 8–20, so the ordinary 8/9 cutoff applies."@
        },
{
}

/// The holder of a seat goes by name in the summary, and a seat without a holder
/// by a dash.
pub proof fn an_empty_seat_shows_a_dash(rows: Seq<RowModel>, code: Option<Seq<char>>)
    ensures
        code matches Some(c) ==> name_or_dash(rows, code) == name_of(rows, c),
        code is None ==> name_or_dash(rows, code) == "—"@,
{
}

/// The text of a shared link names the season, the holder of seat 8, the first
/// alternate and the day of the standings.
pub proof fn a_shared_link_carries_the_news(
    s: SnapshotModel,
    selection: SelectionModel,
    season: u16,
    alternate: Seq<char>,
)
    ensures
        preview_text(s, selection, season, alternate) == "Who would qualify for the "@ + decimal(
            season as nat,
        ) + " ATP Finals in Turin if selection happened now. Seat 8: "@ + (
        match selection.eighth_code {
            Some(code) => name_of(s.rows, code),
            None => "—"@,
        }) + ". First alternate: "@ + alternate + ". Standings as of "@
            + crate::calendar::day_text(s.source_as_of) + "."@,
{
}

// ---------------------------------------------------------------------------
// What a monitor is told
// ---------------------------------------------------------------------------

/// A health report goes on with three lines: how long ago the snapshot was
/// collected, how long ago the source was current, and the snapshot's version.
pub proof fn a_health_report_has_a_line_for_each_number(checked: int, source: int, version: int)
    ensures
        lines_of(health_lines(checked, source, version)) == seq![
            "checked_age_seconds="@ + decimal_int(checked),
            "source_age_seconds="@ + decimal_int(source),
            "snapshot_version="@ + decimal_int(version),
        ],
{
    reveal_strlit("checked_age_seconds=");
    reveal_strlit("\nsource_age_seconds=");
    reveal_strlit("source_age_seconds=");
    reveal_strlit("\nsnapshot_version=");
    reveal_strlit("snapshot_version=");
    reveal_strlit("\n");
    let a = "checked_age_seconds="@ + decimal_int(checked);
    let b = "source_age_seconds="@ + decimal_int(source);
    let c = "snapshot_version="@ + decimal_int(version);
    numbers_are_one_line(checked);
    numbers_are_one_line(source);
    numbers_are_one_line(version);
    let end = seq!['\n'];
    let none = Seq::<char>::empty();
    let third = c + end + none;
    let second = b + end + third;
    assert(health_lines(checked, source, version) =~= a + end + second);
    a_line_feed_ends_a_line(a, second);
    a_line_feed_ends_a_line(b, third);
    a_line_feed_ends_a_line(c, none);
    assert(lines_of(none) =~= seq![]);
    assert(lines_of(a + end + second) =~= seq![a, b, c]);
}

/// A written number holds neither a line feed nor a carriage return.
proof fn numbers_are_one_line(n: int)
    ensures
        forall|i: int|
            0 <= i < decimal_int(n).len() ==> #[trigger] decimal_int(n)[i] != '\n'
                && decimal_int(n)[i] != '\r',
        decimal_int(n).len() > 0,
{
    let size = (if n < 0 {
        -n
    } else {
        n
    }) as nat;
    decimals_read_back(size);
    let d = decimal(size);
    assert forall|i: int| 0 <= i < decimal_int(n).len() implies #[trigger] decimal_int(n)[i]
        != '\n' && decimal_int(n)[i] != '\r' by {
        if n < 0 {
            if i > 0 {
                assert(decimal_int(n)[i] == d[i - 1]);
                assert(is_digit(d[i - 1]));
            }
        } else {
            assert(is_digit(d[i]));
        }
    }
}

} // verus!
