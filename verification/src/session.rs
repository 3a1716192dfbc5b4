//! A session: the leaderboard, the real-time switch, and the mirror that holds the
//! projection last published for readers outside.

use vstd::prelude::*;
use crate::board::{BoardView, Leaderboard};
use crate::export::{board_text, export_of, ExportTable, ExportView};
use crate::import::import_document;
use crate::parse::document_at;
use crate::ranked::{Category, EntryView};
use crate::store::{delete_records, table_of, upsert_records, Mode, RecordView};
use crate::time::Time;

verus! {

/// The projection last published. It is a copy: reading it does not touch the
/// leaderboard, and changing the leaderboard does not change it.
pub struct ExportMirror {
    latest: Option<ExportTable>,
}

/// A snapshot, where there is one, as a plain value.
pub open spec fn snapshot_view(snapshot: Option<ExportTable>) -> Option<ExportView> {
    match snapshot {
        Some(table) => Some(table@),
        None => None,
    }
}

impl View for ExportMirror {
    type V = Option<ExportView>;

    closed spec fn view(&self) -> Option<ExportView> {
        snapshot_view(self.latest)
    }
}

impl ExportMirror {
    /// A mirror to which nothing was published yet.
    pub fn new() -> (m: ExportMirror)
        ensures
            m@ is None,
    {
        ExportMirror { latest: None }
    }

    /// Publishes the projection of the leaderboard as it is now.
    pub fn refresh(&mut self, board: &Leaderboard)
        ensures
            final(self)@ == Some(export_of(board@)),
    {
        self.latest = Some(board.export_table());
    }

    /// The projection last published, if any was.
    pub fn read(&self) -> (snapshot: &Option<ExportTable>)
        ensures
            snapshot_view(*snapshot) == self@,
    {
        &self.latest
    }
}

/// A session as a plain value.
pub struct SessionView {
    pub board: BoardView,
    pub real_time: bool,
    pub mirror: Option<ExportView>,
}

impl SessionView {
    /// The session once an operation has left the leaderboard as `board`: in
    /// real-time mode the mirror holds the projection of `board`, otherwise it holds
    /// what it held before.
    pub open spec fn publish(self, board: BoardView) -> SessionView {
        SessionView {
            board,
            real_time: self.real_time,
            mirror: if self.real_time {
                Some(export_of(board))
            } else {
                self.mirror
            },
        }
    }
}

/// The state of one session.
pub struct Session {
    board: Leaderboard,
    real_time: bool,
    mirror: ExportMirror,
}

impl View for Session {
    type V = SessionView;

    closed spec fn view(&self) -> SessionView {
        SessionView { board: self.board@, real_time: self.real_time, mirror: self.mirror@ }
    }
}

impl Default for Session {
    fn default() -> (s: Session)
        ensures
            s@ == (SessionView { board: BoardView::empty(), real_time: false, mirror: None }),
    {
        Session::new()
    }
}

impl Session {
    /// A session with an empty leaderboard, real-time mode off and nothing published.
    pub fn new() -> (s: Session)
        ensures
            s@ == (SessionView { board: BoardView::empty(), real_time: false, mirror: None }),
    {
        Session { board: Leaderboard::new(), real_time: false, mirror: ExportMirror::new() }
    }

    /// The leaderboard.
    pub fn board(&self) -> (b: &Leaderboard)
        ensures
            b@ == self@.board,
    {
        &self.board
    }

    /// Whether real-time mode is on.
    pub fn real_time_enabled(&self) -> (on: bool)
        ensures
            on == self@.real_time,
    {
        self.real_time
    }

    /// The projection last published, if any was.
    pub fn read(&self) -> (snapshot: &Option<ExportTable>)
        ensures
            snapshot_view(*snapshot) == self@.mirror,
    {
        self.mirror.read()
    }

    fn publish(&mut self)
        ensures
            final(self)@ == old(self)@.publish(old(self)@.board),
    {
        if self.real_time {
            self.mirror.refresh(&self.board);
        }
    }

    /// Publishes the projection of the leaderboard as it is now, whatever the mode.
    pub fn refresh(&mut self)
        ensures
            final(self)@ == (SessionView { mirror: Some(export_of(old(self)@.board)), ..old(self)@ }),
    {
        self.mirror.refresh(&self.board);
    }

    /// Switches real-time mode. Switching it on publishes at once; switching it off
    /// leaves the mirror with what it holds.
    pub fn set_real_time(&mut self, enabled: bool)
        ensures
            final(self)@ == (SessionView { real_time: enabled, ..old(self)@ }).publish(
                old(self)@.board,
            ),
    {
        self.real_time = enabled;
        self.publish();
    }

    /// Sets the mode flag of the leaderboard. Nothing is published.
    pub fn set_ctt2_mode(&mut self, on: bool)
        ensures
            final(self)@ == (SessionView {
                board: BoardView { ctt2_mode: on, ..old(self)@.board },
                ..old(self)@
            }),
    {
        self.board.ctt2_mode = on;
    }

    /// Submits a time for a course, and says whether it was taken. With an empty
    /// course name or an empty player name nothing is submitted. In real-time mode
    /// the mirror is refreshed either way.
    pub fn add_record(&mut self, course: &str, mode: Mode, player: &str, time: Time) -> (taken:
        bool)
        ensures
            taken == (course@.len() > 0 && player@.len() > 0),
            final(self)@ == old(self)@.publish(
                if taken {
                    BoardView {
                        records: upsert_records(
                            old(self)@.board.records,
                            RecordView { course: course@, mode, player: player@, time },
                        ),
                        ..old(self)@.board
                    }
                } else {
                    old(self)@.board
                },
            ),
    {
        let taken = !course.is_empty() && !player.is_empty();
        if taken {
            self.board.store.upsert(course, mode, player, time);
        }
        self.publish();
        taken
    }

    /// Adds an entry to a ranked list of the main course, and says whether the tag
    /// names a category. In real-time mode the mirror is refreshed either way.
    pub fn add_main_ob_record(&mut self, player: &str, time: Time, category: &str) -> (known:
        bool)
        ensures
            known == Category::of_name(category@).is_some(),
            final(self)@ == old(self)@.publish(
                BoardView {
                    ranked: old(self)@.board.ranked.insert_named(
                        category@,
                        EntryView { player: player@, time },
                    ),
                    ..old(self)@.board
                },
            ),
    {
        let known = self.board.ranked.insert(category, player, time);
        self.publish();
        known
    }

    /// Removes the record of a course and mode, and says whether there was one. In
    /// real-time mode the mirror is refreshed either way.
    pub fn delete_record(&mut self, course: &str, mode: Mode) -> (found: bool)
        ensures
            found == table_of(old(self)@.board.records).contains_key((course@, mode)),
            final(self)@ == old(self)@.publish(
                BoardView {
                    records: delete_records(old(self)@.board.records, course@, mode),
                    ..old(self)@.board
                },
            ),
    {
        let found = self.board.store.delete(course, mode);
        self.publish();
        found
    }

    /// Takes a text in, and says whether it was read. In real-time mode the mirror is
    /// refreshed either way.
    pub fn import_text(&mut self, text: &str) -> (read: bool)
        ensures
            read == document_at(text@).is_some(),
            final(self)@ == old(self)@.publish(import_document(old(self)@.board, text@)),
    {
        let read = self.board.import_text(text);
        self.publish();
        read
    }

    /// The leaderboard as text. In real-time mode the mirror is refreshed.
    pub fn export_text(&mut self) -> (text: String)
        ensures
            text@ == board_text(old(self)@.board),
            final(self)@ == old(self)@.publish(old(self)@.board),
    {
        let text = self.board.to_text();
        self.publish();
        text
    }
}

} // verus!
