//! Outbound links from a player's name to their ATP profile.
//!
//! This project never *fetches* `atptour.com` — it refuses automated clients,
//! and we don't disguise ourselves to get around that. Linking to it is a
//! different act, and a reader reasonably expects a name to lead to the
//! profile.
//!
//! The ids come from Wikidata property P536 ("Association of Tennis
//! Professionals player ID"): machine-readable, CC0, publicly queryable, and
//! keyed by the same English Wikipedia article titles this app already uses as
//! player identity. So the map is derived, not hand-typed. It is resolved
//! offline and compiled in, which means serving a page needs no extra request
//! and no file on the deploy volume.

use vstd::prelude::*;

use crate::text::{ascii_digit, ascii_upper, chars_of, is_digit, is_upper, same_text, string_opt};

verus! {

/// Generated, checked in, and compiled into the binary.
pub const IDS_TOML: &'static str = "\
# GENERATED — do not edit by hand.
#
# Wikipedia article title -> ATP player id (Wikidata property P536, CC0),
# used to link a player's name to https://www.atptour.com/en/players/-/<id>/overview.
# Regenerate with `cargo run --bin refresh-atp-ids`.
#
# Titles last read from: https://en.wikipedia.org/wiki/2026_ATP_Finals

\"Alexander Zverev\" = \"Z355\"
\"Carlos Alcaraz\" = \"A0E2\"
\"Félix Auger-Aliassime\" = \"AG37\"
\"Jakub Menšík\" = \"M0NI\"
\"Jannik Sinner\" = \"S0AG\"
\"Taylor Fritz\" = \"FB98\"
";

// ---------------------------------------------------------------------------
// The format of an id
// ---------------------------------------------------------------------------

/// An upper-case letter, then three upper-case letters or digits.
pub open spec fn well_formed_id(id: Seq<char>) -> bool {
    &&& id.len() == 4
    &&& is_upper(id[0])
    &&& forall|i: int| 0 <= i < 4 ==> is_upper(#[trigger] id[i]) || is_digit(id[i])
}

/// Wikidata's own format constraint on P536 (`[A-Z][0-9A-Z]{3}`). Checked
/// rather than trusted: a malformed id would render a link that cannot be a
/// profile, and a wrong link is worse than no link.
pub fn valid_id(id: &str) -> (r: bool)
    ensures
        r == well_formed_id(id@),
{
    let chars = chars_of(id);
    if chars.len() != 4 || !ascii_upper(chars[0]) {
        return false;
    }
    let mut i: usize = 0;
    while i < 4
        invariant
            i <= 4,
            chars@ == id@,
            chars@.len() == 4,
            forall|k: int| 0 <= k < i ==> is_upper(#[trigger] chars@[k]) || is_digit(chars@[k]),
        decreases 4 - i,
    {
        if !(ascii_upper(chars[i]) || ascii_digit(chars[i])) {
            return false;
        }
        i += 1;
    }
    true
}

/// The address of the profile with an id.
pub open spec fn profile_address(id: Seq<char>) -> Seq<char> {
    "https://www.atptour.com/en/players/-/"@ + id + "/overview"@
}

/// P536's formatter URL. The name segment is a throwaway `-`: the id alone
/// identifies the player, so a title never has to be transliterated into a
/// slug we would have to keep correct.
pub fn url_for(id: &str) -> (r: String)
    ensures
        r@ == profile_address(id@),
{
    let mut s = "https://www.atptour.com/en/players/-/".to_string();
    s.append(id);
    s.append("/overview");
    s
}

// ---------------------------------------------------------------------------
// Titles and their ids
// ---------------------------------------------------------------------------

/// `a` comes before `b`, character by character in the order of their code
/// points.
pub open spec fn comes_before(a: Seq<char>, b: Seq<char>) -> bool
    decreases a.len(),
{
    if b.len() == 0 {
        false
    } else if a.len() == 0 {
        true
    } else if a[0] != b[0] {
        (a[0] as int) < (b[0] as int)
    } else {
        comes_before(a.drop_first(), b.drop_first())
    }
}

/// The order is strict and total.
pub proof fn before_is_strict(a: Seq<char>, b: Seq<char>)
    ensures
        comes_before(a, b) ==> !comes_before(b, a) && a != b,
        !comes_before(a, b) && !comes_before(b, a) ==> a == b,
    decreases a.len(),
{
    if a.len() > 0 && b.len() > 0 && a[0] == b[0] {
        before_is_strict(a.drop_first(), b.drop_first());
        assert(a =~= seq![a[0]] + a.drop_first());
        assert(b =~= seq![b[0]] + b.drop_first());
    } else if a.len() == 0 && b.len() == 0 {
        assert(a =~= b);
    } else if a.len() > 0 && b.len() > 0 {
        assert(a[0] as int != b[0] as int);
    }
}

proof fn before_is_transitive(a: Seq<char>, b: Seq<char>, c: Seq<char>)
    requires
        comes_before(a, b),
        comes_before(b, c),
    ensures
        comes_before(a, c),
    decreases a.len(),
{
    if a.len() > 0 && b.len() > 0 && c.len() > 0 && a[0] == b[0] && b[0] == c[0] {
        before_is_transitive(a.drop_first(), b.drop_first(), c.drop_first());
    }
}

fn code_point(c: char) -> (r: u32)
    ensures
        r as int == c as int,
{
    c as u32
}

fn text_before(a: &[char], b: &[char]) -> (r: bool)
    ensures
        r == comes_before(a@, b@),
{
    let mut i: usize = 0;
    assert(a@.skip(0) =~= a@ && b@.skip(0) =~= b@);
    loop
        invariant
            i <= a@.len(),
            i <= b@.len(),
            comes_before(a@, b@) == comes_before(a@.skip(i as int), b@.skip(i as int)),
        decreases a@.len() - i,
    {
        if i >= b.len() {
            return false;
        }
        if i >= a.len() {
            return true;
        }
        if a[i] != b[i] {
            return code_point(a[i]) < code_point(b[i]);
        }
        assert(a@.skip(i as int).drop_first() =~= a@.skip(i + 1));
        assert(b@.skip(i as int).drop_first() =~= b@.skip(i + 1));
        i += 1;
    }
}

/// What a list of titles and ids holds, as text.
pub open spec fn pairs_model(pairs: Seq<(String, String)>) -> Seq<(Seq<char>, Seq<char>)> {
    pairs.map_values(|p: (String, String)| (p.0@, p.1@))
}

/// The map that the pairs make, a later pair over an earlier one.
pub open spec fn pairs_map(pairs: Seq<(Seq<char>, Seq<char>)>) -> Map<Seq<char>, Seq<char>>
    decreases pairs.len(),
{
    if pairs.len() == 0 {
        Map::empty()
    } else {
        pairs_map(pairs.drop_last()).insert(pairs.last().0, pairs.last().1)
    }
}

/// The titles stand in order, each once.
pub open spec fn ascending(pairs: Seq<(Seq<char>, Seq<char>)>) -> bool {
    forall|i: int, j: int|
        0 <= i < j < pairs.len() ==> comes_before((#[trigger] pairs[i]).0, (#[trigger] pairs[j]).0)
}

/// Article title -> ATP id, in the order of the titles.
#[derive(Debug, Clone)]
pub struct IdTable {
    entries: Vec<(String, String)>,
}

impl View for IdTable {
    type V = Map<Seq<char>, Seq<char>>;

    closed spec fn view(&self) -> Map<Seq<char>, Seq<char>> {
        pairs_map(pairs_model(self.entries@))
    }
}

/// In an ascending list, what the map has is what the list has.
pub proof fn ascending_map(pairs: Seq<(Seq<char>, Seq<char>)>)
    requires
        ascending(pairs),
    ensures
        forall|i: int|
            0 <= i < pairs.len() ==> pairs_map(pairs).contains_key((#[trigger] pairs[i]).0)
                && pairs_map(pairs)[pairs[i].0] == pairs[i].1,
        forall|k: Seq<char>|
            pairs_map(pairs).contains_key(k) ==> exists|i: int|
                0 <= i < pairs.len() && (#[trigger] pairs[i]).0 == k,
        pairs_map(pairs).dom().finite(),
        pairs_map(pairs).len() == pairs.len(),
    decreases pairs.len(),
{
    if pairs.len() > 0 {
        let front = pairs.drop_last();
        let last = pairs.last();
        assert(ascending(front)) by {
            assert forall|i: int, j: int| 0 <= i < j < front.len() implies comes_before(
                (#[trigger] front[i]).0,
                (#[trigger] front[j]).0,
            ) by {
                assert(comes_before(pairs[i].0, pairs[j].0));
            }
        }
        ascending_map(front);
        assert forall|i: int| 0 <= i < front.len() implies (#[trigger] front[i]).0 != last.0 by {
            assert(comes_before(pairs[i].0, pairs[pairs.len() - 1].0));
            before_is_strict(front[i].0, last.0);
        }
        assert(!pairs_map(front).contains_key(last.0));
        assert forall|i: int| 0 <= i < pairs.len() implies pairs_map(pairs).contains_key(
            (#[trigger] pairs[i]).0,
        ) && pairs_map(pairs)[pairs[i].0] == pairs[i].1 by {
            if i < front.len() {
                assert(front[i] == pairs[i]);
            }
        }
        assert forall|k: Seq<char>| pairs_map(pairs).contains_key(k) implies exists|i: int|
            0 <= i < pairs.len() && (#[trigger] pairs[i]).0 == k by {
            if k == last.0 {
                assert(pairs[pairs.len() - 1].0 == k);
            } else {
                let i = choose|i: int| 0 <= i < front.len() && (#[trigger] front[i]).0 == k;
                assert(pairs[i].0 == k);
            }
        }
    }
}

impl IdTable {
    /// The titles stand in order, each once.
    pub closed spec fn well_formed(&self) -> bool {
        ascending(pairs_model(self.entries@))
    }

    pub fn new() -> (r: IdTable)
        ensures
            r.well_formed(),
            r@ == Map::<Seq<char>, Seq<char>>::empty(),
    {
        IdTable { entries: Vec::new() }
    }

    /// The entries, in the order of their titles.
    pub fn entries(&self) -> (r: &Vec<(String, String)>)
        requires
            self.well_formed(),
        ensures
            ascending(pairs_model(r@)),
            pairs_map(pairs_model(r@)) == self@,
    {
        &self.entries
    }

    pub fn len(&self) -> (r: usize)
        requires
            self.well_formed(),
        ensures
            r == self@.len(),
    {
        proof {
            ascending_map(pairs_model(self.entries@));
        }
        self.entries.len()
    }

    /// Where a title stands, or would stand.
    fn position(&self, title: &str) -> (r: usize)
        requires
            self.well_formed(),
        ensures
            r <= self.entries@.len(),
            forall|i: int|
                0 <= i < r ==> comes_before(
                    (#[trigger] pairs_model(self.entries@)[i]).0,
                    title@,
                ),
            forall|i: int|
                r <= i < self.entries@.len() ==> !comes_before(
                    (#[trigger] pairs_model(self.entries@)[i]).0,
                    title@,
                ),
    {
        let ghost all = pairs_model(self.entries@);
        let wanted = chars_of(title);
        let mut i: usize = 0;
        while i < self.entries.len()
            invariant
                i <= self.entries@.len(),
                self.well_formed(),
                wanted@ == title@,
                all == pairs_model(self.entries@),
                forall|k: int| 0 <= k < i ==> comes_before((#[trigger] all[k]).0, title@),
            decreases self.entries@.len() - i,
        {
            let here = chars_of(self.entries[i].0.as_str());
            assert(all[i as int].0 == here@);
            if !text_before(here.as_slice(), wanted.as_slice()) {
                assert forall|k: int| i <= k < all.len() implies !comes_before(
                    (#[trigger] all[k]).0,
                    title@,
                ) by {
                    if k > i && comes_before(all[k].0, title@) {
                        assert(comes_before(all[i as int].0, all[k].0));
                        before_is_transitive(all[i as int].0, all[k].0, title@);
                    }
                }
                return i;
            }
            i += 1;
        }
        i
    }

    /// The id of a title.
    pub fn get(&self, title: &str) -> (r: Option<&String>)
        requires
            self.well_formed(),
        ensures
            match r {
                Some(id) => self@.contains_key(title@) && self@[title@] == id@,
                None => !self@.contains_key(title@),
            },
    {
        let ghost all = pairs_model(self.entries@);
        proof {
            ascending_map(all);
        }
        let i = self.position(title);
        if i < self.entries.len() && same_text(self.entries[i].0.as_str(), title) {
            assert(all[i as int].0 == title@);
            return Some(&self.entries[i].1);
        }
        proof {
            if self@.contains_key(title@) {
                let k = choose|k: int| 0 <= k < all.len() && (#[trigger] all[k]).0 == title@;
                before_is_strict(title@, title@);
                assert(k >= i);
                if k > i {
                    assert(comes_before(all[i as int].0, all[k].0));
                }
            }
        }
        None
    }

    /// Give a title an id, in place of the one it has if it has one.
    pub fn insert(&mut self, title: String, id: String)
        requires
            old(self).well_formed(),
        ensures
            final(self).well_formed(),
            final(self)@ == old(self)@.insert(title@, id@),
    {
        let ghost all = pairs_model(self.entries@);
        let ghost before = self@;
        proof {
            ascending_map(all);
        }
        let i = self.position(title.as_str());
        let present = i < self.entries.len() && same_text(
            self.entries[i].0.as_str(),
            title.as_str(),
        );
        let ghost t = title@;
        let ghost v = id@;
        if present {
            self.entries.set(i, (title, id));
            let ghost now = pairs_model(self.entries@);
            assert(now =~= all.update(i as int, (t, v)));
            proof {
                assert(all[i as int].0 == t);
                assert forall|a: int, b: int| 0 <= a < b < now.len() implies comes_before(
                    (#[trigger] now[a]).0,
                    (#[trigger] now[b]).0,
                ) by {
                    assert(now[a].0 == all[a].0 && now[b].0 == all[b].0);
                    assert(comes_before(all[a].0, all[b].0));
                }
                same_map_as_insert(all, now, t, v, i as int, true);
            }
        } else {
            self.entries.insert(i, (title, id));
            let ghost now = pairs_model(self.entries@);
            assert(now =~= all.insert(i as int, (t, v)));
            proof {
                assert forall|k: int| i <= k < all.len() implies comes_before(
                    t,
                    (#[trigger] all[k]).0,
                ) by {
                    before_is_strict(t, all[k].0);
                    if k > i && all[k].0 == t {
                        assert(comes_before(all[i as int].0, all[k].0));
                    }
                }
                assert forall|a: int, b: int| 0 <= a < b < now.len() implies comes_before(
                    (#[trigger] now[a]).0,
                    (#[trigger] now[b]).0,
                ) by {
                    let x = if a < i {
                        a
                    } else {
                        a - 1
                    };
                    let y = if b < i {
                        b
                    } else {
                        b - 1
                    };
                    if a != i {
                        assert(now[a] == all[x]);
                    }
                    if b != i {
                        assert(now[b] == all[y]);
                    }
                    if a != i && b != i {
                        assert(comes_before(all[x].0, all[y].0));
                    }
                }
                same_map_as_insert(all, now, t, v, i as int, false);
            }
        }
    }
}

/// An ascending list with one entry put in, or put over another, makes the map
/// with that entry.
proof fn same_map_as_insert(
    all: Seq<(Seq<char>, Seq<char>)>,
    now: Seq<(Seq<char>, Seq<char>)>,
    t: Seq<char>,
    v: Seq<char>,
    i: int,
    over: bool,
)
    requires
        ascending(all),
        ascending(now),
        over ==> 0 <= i < all.len() && all[i].0 == t && now == all.update(i, (t, v)),
        !over ==> 0 <= i <= all.len() && now == all.insert(i, (t, v)),
    ensures
        pairs_map(now) == pairs_map(all).insert(t, v),
{
    ascending_map(all);
    ascending_map(now);
    let a = pairs_map(all);
    let n = pairs_map(now);
    assert(now[i] == (t, v));
    assert forall|k: Seq<char>| n.contains_key(k) == a.insert(t, v).contains_key(k) by {
        if n.contains_key(k) && k != t {
            let j = choose|j: int| 0 <= j < now.len() && (#[trigger] now[j]).0 == k;
            let o = if over || j < i {
                j
            } else {
                j - 1
            };
            assert(all[o].0 == k);
        }
        if a.contains_key(k) && k != t {
            let j = choose|j: int| 0 <= j < all.len() && (#[trigger] all[j]).0 == k;
            let o = if over || j < i {
                j
            } else {
                j + 1
            };
            assert(now[o].0 == k);
        }
    }
    assert forall|k: Seq<char>| n.contains_key(k) implies n[k] == a.insert(t, v)[k] by {
        if k != t {
            let j = choose|j: int| 0 <= j < now.len() && (#[trigger] now[j]).0 == k;
            let o = if over || j < i {
                j
            } else {
                j - 1
            };
            assert(all[o] == now[j]);
        }
    }
    assert(n =~= a.insert(t, v));
}

// ---------------------------------------------------------------------------
// The compiled-in map
// ---------------------------------------------------------------------------

/// The strings that a TOML document gives its keys, if it gives them nothing
/// else, as the `toml` crate reads it.
pub uninterp spec fn toml_strings(text: Seq<char>) -> Option<Map<Seq<char>, Seq<char>>>;

/// `toml::from_str` into a map from strings to strings: what the document gives
/// each of its keys, or an error where it is no TOML or gives anything else.
#[verifier::external_body]
fn read_toml(text: &str) -> (r: Option<Vec<(String, String)>>)
    ensures
        match r {
            Some(pairs) => toml_strings(text@) == Some(pairs_map(pairs_model(pairs@))),
            None => toml_strings(text@) is None,
        },
{
    let read = toml::from_str::<std::collections::BTreeMap<String, String>>(text);
    read.ok().map(|m| m.into_iter().collect())
}

/// The map that a document states, or nothing where it is malformed.
pub fn load_table(text: &str) -> (r: Option<IdTable>)
    ensures
        match r {
            Some(t) => t.well_formed() && toml_strings(text@) == Some(t@),
            None => toml_strings(text@) is None,
        },
{
    let pairs = match read_toml(text) {
        Some(p) => p,
        None => {
            return None;
        },
    };
    let ghost all = pairs_model(pairs@);
    let mut table = IdTable::new();
    let mut i: usize = 0;
    assert(table@ =~= pairs_map(all.take(0)));
    while i < pairs.len()
        invariant
            i <= pairs@.len(),
            all == pairs_model(pairs@),
            table.well_formed(),
            table@ == pairs_map(all.take(i as int)),
        decreases pairs@.len() - i,
    {
        assert(all.take(i + 1).drop_last() =~= all.take(i as int));
        assert(all.take(i + 1).last() == (pairs@[i as int].0@, pairs@[i as int].1@));
        table.insert(pairs[i].0.clone(), pairs[i].1.clone());
        i += 1;
    }
    assert(all.take(i as int) =~= all);
    Some(table)
}

/// The entries whose ids are well formed.
pub open spec fn valid_only(m: Map<Seq<char>, Seq<char>>) -> Map<Seq<char>, Seq<char>> {
    m.restrict(Set::new(|title: Seq<char>| m.contains_key(title) && well_formed_id(m[title])))
}

/// The entries whose ids are well formed.
pub fn keep_valid(table: &IdTable) -> (r: IdTable)
    requires
        table.well_formed(),
    ensures
        r.well_formed(),
        r@ == valid_only(table@),
{
    let entries = table.entries();
    let ghost all = pairs_model(entries@);
    let mut out = IdTable::new();
    let mut i: usize = 0;
    assert(out@ =~= valid_only(pairs_map(all.take(0))));
    while i < entries.len()
        invariant
            i <= entries@.len(),
            all == pairs_model(entries@),
            ascending(all),
            out.well_formed(),
            out@ == valid_only(pairs_map(all.take(i as int))),
        decreases entries@.len() - i,
    {
        let ghost front = all.take(i as int);
        let ghost now = all.take(i + 1);
        let ghost entry = all[i as int];
        proof {
            assert(now.drop_last() =~= front);
            assert(now.last() == entry);
            assert(ascending(front)) by {
                assert forall|a: int, b: int| 0 <= a < b < front.len() implies comes_before(
                    (#[trigger] front[a]).0,
                    (#[trigger] front[b]).0,
                ) by {
                    assert(comes_before(all[a].0, all[b].0));
                }
            }
            ascending_map(front);
            if pairs_map(front).contains_key(entry.0) {
                let k = choose|k: int| 0 <= k < front.len() && (#[trigger] front[k]).0 == entry.0;
                assert(comes_before(all[k].0, all[i as int].0));
                before_is_strict(entry.0, entry.0);
            }
        }
        let id = &entries[i].1;
        if valid_id(id.as_str()) {
            out.insert(entries[i].0.clone(), id.clone());
        }
        assert(out@ =~= valid_only(pairs_map(now)));
        i += 1;
    }
    assert(all.take(i as int) =~= all);
    out
}

/// The map that is compiled in, without malformed ids; nothing if the document
/// itself is malformed, which is an authoring error.
pub fn ids() -> (r: Option<IdTable>)
    ensures
        match r {
            Some(t) => t.well_formed() && (toml_strings(IDS_TOML@) matches Some(m) && t@
                == valid_only(m)),
            None => toml_strings(IDS_TOML@) is None,
        },
{
    match load_table(IDS_TOML) {
        Some(t) => Some(keep_valid(&t)),
        None => None,
    }
}

/// The profile that a map gives a player.
pub open spec fn profile_link(m: Map<Seq<char>, Seq<char>>, player_code: Seq<char>) -> Option<
    Seq<char>,
> {
    if m.contains_key(player_code) {
        Some(profile_address(m[player_code]))
    } else {
        None
    }
}

/// The player's ATP profile by the map in hand, or `None` when it has no id for
/// them.
pub fn profile_in(ids: &IdTable, player_code: &str) -> (r: Option<String>)
    requires
        ids.well_formed(),
    ensures
        string_opt(r) == profile_link(ids@, player_code@),
{
    match ids.get(player_code) {
        Some(id) => Some(url_for(id.as_str())),
        None => None,
    }
}

/// The player's ATP profile, or `None` when we have no id for them — a new
/// entrant links nowhere rather than linking somewhere wrong. The compiled-in
/// document has to be well formed.
pub fn profile_url(player_code: &str) -> (r: Option<String>)
    requires
        toml_strings(IDS_TOML@) is Some,
    ensures
        string_opt(r) == profile_link(valid_only(toml_strings(IDS_TOML@)->0), player_code@),
{
    match ids() {
        Some(t) => profile_in(&t, player_code),
        None => None,
    }
}

/// The player's ATP profile as `profile_url` gives it, or `None` where the
/// compiled-in document is malformed.
pub fn checked_profile_url(player_code: &str) -> (r: Option<Option<String>>)
    ensures
        match r {
            Some(url) => toml_strings(IDS_TOML@) matches Some(m) && string_opt(url) == profile_link(
                valid_only(m),
                player_code@,
            ),
            None => toml_strings(IDS_TOML@) is None,
        },
{
    if ids().is_some() {
        Some(profile_url(player_code))
    } else {
        None
    }
}

/// A name links to a profile exactly when the map has a well-formed id for it,
/// and then to the profile with that id.
pub proof fn links_are_never_guessed(m: Map<Seq<char>, Seq<char>>, player_code: Seq<char>)
    ensures
        match profile_link(valid_only(m), player_code) {
            Some(url) => m.contains_key(player_code) && well_formed_id(m[player_code]) && url
                == profile_address(m[player_code]),
            None => m.contains_key(player_code) ==> !well_formed_id(m[player_code]),
        },
{
}

/// An id is a capital and three more characters, each a capital or a digit;
/// nothing shorter, longer or otherwise written is one.
pub proof fn ids_are_a_capital_and_three_capitals_or_digits(id: Seq<char>)
    ensures
        well_formed_id(id) <==> {
            &&& id.len() == 4
            &&& 'A' <= id[0] <= 'Z'
            &&& 'A' <= id[1] <= 'Z' || '0' <= id[1] <= '9'
            &&& 'A' <= id[2] <= 'Z' || '0' <= id[2] <= '9'
            &&& 'A' <= id[3] <= 'Z' || '0' <= id[3] <= '9'
        },
{
}

/// A profile's address has the id between two fixed parts, so that two ids never
/// share one.
pub proof fn addresses_carry_the_id(a: Seq<char>, b: Seq<char>)
    ensures
        profile_address(a) == "https://www.atptour.com/en/players/-/"@ + a + "/overview"@,
        profile_address(a) == profile_address(b) ==> a == b,
{
    reveal_strlit("https://www.atptour.com/en/players/-/");
    reveal_strlit("/overview");
    let front = "https://www.atptour.com/en/players/-/"@;
    let x = profile_address(a);
    let y = profile_address(b);
    assert(x.subrange(front.len() as int, (front.len() + a.len()) as int) =~= a);
    assert(y.subrange(front.len() as int, (front.len() + b.len()) as int) =~= b);
    assert(x.len() == front.len() + a.len() + 9);
    assert(y.len() == front.len() + b.len() + 9);
}

/// Checking a map keeps an entry, with its id, exactly when the id is well
/// formed.
pub proof fn checking_keeps_the_good_entries(m: Map<Seq<char>, Seq<char>>, title: Seq<char>)
    ensures
        valid_only(m).contains_key(title) <==> m.contains_key(title) && well_formed_id(m[title]),
        valid_only(m).contains_key(title) ==> valid_only(m)[title] == m[title],
{
}

} // verus!
