//! Tiny, auditable manual input: officially announced facts that must never be
//! inferred from points (qualifiers, slam titles, withdrawals).

use vstd::hash_set::StringHashSet;
use vstd::prelude::*;

verus! {

#[derive(Debug, Clone)]
pub struct Curated {
    pub season: u16,
    pub ruleset: String,
    /// Shown on the methodology page.
    pub notice: String,
    pub slam_champions: Vec<CuratedPlayer>,
    pub official_qualifiers: Vec<CuratedPlayer>,
    pub withdrawals: Vec<CuratedPlayer>,
}

#[derive(Debug, Clone)]
pub struct CuratedPlayer {
    /// The identity key, matching parsed rows.
    pub code: String,
    /// Display name for provenance/review only.
    pub name: String,
    pub source: Option<String>,
}

/// The codes of the players in a list.
pub open spec fn codes(players: Seq<CuratedPlayer>) -> Set<Seq<char>> {
    players.map_values(|p: CuratedPlayer| p.code@).to_set()
}

/// A code is listed exactly when a player of the list has it.
pub proof fn a_code_is_listed_by_its_player(players: Seq<CuratedPlayer>, code: Seq<char>)
    ensures
        codes(players).contains(code) <==> exists|i: int|
            0 <= i < players.len() && (#[trigger] players[i]).code@ == code,
{
    let all = players.map_values(|p: CuratedPlayer| p.code@);
    if codes(players).contains(code) {
        let i = choose|i: int| 0 <= i < all.len() && all[i] == code;
        assert(players[i].code@ == code);
    }
    if exists|i: int| 0 <= i < players.len() && (#[trigger] players[i]).code@ == code {
        let i = choose|i: int| 0 <= i < players.len() && (#[trigger] players[i]).code@ == code;
        assert(all[i] == code);
    }
}

fn code_set(players: &Vec<CuratedPlayer>) -> (r: StringHashSet)
    ensures
        r@ == codes(players@),
{
    let ghost all = players@.map_values(|p: CuratedPlayer| p.code@);
    let mut out = StringHashSet::new();
    let mut i: usize = 0;
    assert(out@ =~= all.take(0).to_set());
    while i < players.len()
        invariant
            i <= players@.len(),
            all == players@.map_values(|p: CuratedPlayer| p.code@),
            out@ == all.take(i as int).to_set(),
        decreases players@.len() - i,
    {
        out.insert(players[i].code.clone());
        assert(out@ =~= all.take(i + 1).to_set()) by {
            let before = all.take(i as int);
            let after = all.take(i + 1);
            assert(after =~= before.push(all[i as int]));
            assert forall|c: Seq<char>| after.contains(c) == (before.contains(c) || c
                == all[i as int]) by {
                if before.contains(c) {
                    let k = before.index_of(c);
                    assert(after[k] == c);
                }
                if c == all[i as int] {
                    assert(after[i as int] == c);
                }
            }
        }
        i += 1;
    }
    assert(all.take(i as int) =~= all);
    out
}

impl Curated {
    pub fn slam_champion_codes(&self) -> (r: StringHashSet)
        ensures
            r@ == codes(self.slam_champions@),
    {
        code_set(&self.slam_champions)
    }

    pub fn official_qualifier_codes(&self) -> (r: StringHashSet)
        ensures
            r@ == codes(self.official_qualifiers@),
    {
        code_set(&self.official_qualifiers)
    }

    pub fn withdrawal_codes(&self) -> (r: StringHashSet)
        ensures
            r@ == codes(self.withdrawals@),
    {
        code_set(&self.withdrawals)
    }
}

} // verus!
