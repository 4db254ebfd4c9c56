//! Who would qualify for the ATP Finals in Turin if selection happened now:
//! reading the standings, checking them, applying the selection rule, and
//! saying what the pages say.

use vstd::prelude::*;

pub mod atp;
pub mod calendar;
pub mod canonical;
pub mod curated;
pub mod digest;
pub mod display;
pub mod fetch;
pub mod live;
pub mod model;
pub mod parser;
pub mod qualification;
pub mod reading;
pub mod rows;
pub mod source;
pub mod storage;
pub mod table;
pub mod text;
pub mod web;
pub mod wikidata;

use crate::curated::{codes, Curated};
use crate::model::Snapshot;
use crate::qualification::{select, selection_of};
use crate::web::{servable, AppState};

verus! {

/// When a table reads stale, and where it is served.
#[derive(Debug, Clone)]
pub struct Settings {
    /// Seconds after which the source's own date reads stale.
    pub stale_after: u64,
    /// Seconds without a successful collection after which to warn.
    pub check_stale_after: u64,
    /// Public origin, used for canonical and shared-link metadata.
    pub base_url: String,
}

pub struct Loaded {
    pub state: AppState,
    /// False when the store already held this content and nothing was written.
    pub created: bool,
}

/// The state to serve from the snapshot that the current pointer designates.
pub fn load_state(
    snapshot: Snapshot,
    version: i64,
    curated: Curated,
    settings: Settings,
    created: bool,
) -> (r: Loaded)
    ensures
        r.created == created,
        r.state.snapshot == snapshot,
        r.state.version == version,
        r.state.curated == curated,
        r.state.selection@ == selection_of(
            snapshot@.rows,
            codes(curated.slam_champions@),
            codes(curated.withdrawals@),
        ),
        r.state.stale_after == settings.stale_after,
        r.state.check_stale_after == settings.check_stale_after,
        r.state.base_url == settings.base_url,
        r.state.well_formed() == servable(snapshot@),
{
    let selection = select(snapshot.rows.as_slice(), &curated);
    Loaded {
        state: AppState {
            snapshot,
            version,
            curated,
            selection,
            stale_after: settings.stale_after,
            check_stale_after: settings.check_stale_after,
            base_url: settings.base_url,
        },
        created,
    }
}

} // verus!
