//! The leaderboard: the record store, the ranked lists and the mode flag.

use vstd::prelude::*;
use crate::ranked::{RankedLists, RankedView};
use crate::store::{RecordStore, RecordView};

verus! {

/// The whole leaderboard of a session.
pub struct Leaderboard {
    /// Whether the ranked lists of the main course are part of what is written out.
    pub ctt2_mode: bool,
    pub store: RecordStore,
    pub ranked: RankedLists,
}

/// A leaderboard as a plain value.
pub struct BoardView {
    pub ctt2_mode: bool,
    pub records: Seq<RecordView>,
    pub ranked: RankedView,
}

impl View for Leaderboard {
    type V = BoardView;

    open spec fn view(&self) -> BoardView {
        BoardView { ctt2_mode: self.ctt2_mode, records: self.store@, ranked: self.ranked@ }
    }
}

impl BoardView {
    /// The leaderboard without records and entries, with the mode flag off.
    pub open spec fn empty() -> BoardView {
        BoardView { ctt2_mode: false, records: Seq::empty(), ranked: RankedView::empty() }
    }
}

impl Leaderboard {
    /// An empty leaderboard with the mode flag off.
    pub fn new() -> (b: Leaderboard)
        ensures
            b@ == BoardView::empty(),
    {
        Leaderboard { ctt2_mode: false, store: RecordStore::new(), ranked: RankedLists::new() }
    }
}

} // verus!
