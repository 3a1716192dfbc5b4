use obby_records::ranked::Category;
use obby_records::session::{ExportMirror, Session};
use obby_records::board::Leaderboard;
use obby_records::store::Mode;
use obby_records::time::Time;

fn t(millis: i64) -> Time {
    Time::from_millis(millis)
}

#[test]
fn a_new_session_has_nothing_published() {
    let session = Session::new();
    assert!(!session.real_time_enabled());
    assert!(session.read().is_none());
    assert_eq!(session.board().store.len(), 0);
    assert!(session.board().ranked.is_empty());
    assert!(!session.board().ctt2_mode);
}

#[test]
fn nothing_is_published_while_real_time_mode_is_off() {
    let mut session = Session::new();
    assert!(session.add_record("Loop", Mode::Bounce, "Cid", t(9_123)));
    assert!(session.add_main_ob_record("X", t(5_000), "Bounce"));
    assert!(session.import_text("{ [\"A\"] = { [\"Bounce\"] = { \"Ann\", 1 } } }"));
    session.export_text();
    assert!(session.delete_record("A", Mode::Bounce));
    assert!(session.read().is_none());
    assert_eq!(session.board().store.len(), 1);
}

#[test]
fn switching_real_time_mode_on_publishes_at_once() {
    let mut session = Session::new();
    session.add_record("Loop", Mode::Bounce, "Cid", t(9_123));
    session.set_real_time(true);
    assert!(session.real_time_enabled());
    let snapshot = session.read().as_ref().unwrap();
    assert_eq!(snapshot.courses.len(), 1);
    assert_eq!(snapshot.courses[0].course, "Loop");
}

#[test]
fn every_operation_publishes_in_real_time_mode() {
    let mut session = Session::new();
    session.set_real_time(true);
    assert_eq!(session.read().as_ref().unwrap().courses.len(), 0);

    session.add_record("Loop", Mode::Bounce, "Cid", t(9_123));
    assert_eq!(session.read().as_ref().unwrap().courses.len(), 1);

    session.import_text("{ [\"A\"] = { [\"Bounceless\"] = { \"Ann\", 1 } } }");
    assert_eq!(session.read().as_ref().unwrap().courses.len(), 2);

    session.delete_record("Loop", Mode::Bounce);
    let snapshot = session.read().as_ref().unwrap();
    assert_eq!(snapshot.courses.len(), 1);
    assert_eq!(snapshot.courses[0].course, "A");
    assert_eq!(snapshot.courses[0].bounceless.as_ref().unwrap().time, t(1_000));

    session.set_ctt2_mode(true);
    assert!(!session.read().as_ref().unwrap().ctt2_mode);
    session.add_main_ob_record("X", t(5_000), "NoPlat");
    let snapshot = session.read().as_ref().unwrap();
    assert!(snapshot.ctt2_mode);
    let main = snapshot.main_obby.as_ref().unwrap();
    assert_eq!(main.len(), 1);
    assert_eq!(main[0].category, Category::NoPlat);
    assert_eq!(main[0].entries[0].player, "X");
}

#[test]
fn a_stale_snapshot_stays_after_switching_off() {
    let mut session = Session::new();
    session.set_real_time(true);
    session.add_record("Loop", Mode::Bounce, "Cid", t(9_123));
    session.set_real_time(false);
    session.add_record("Spiral", Mode::Bounce, "Ann", t(1_000));
    assert_eq!(session.board().store.len(), 2);
    assert_eq!(session.read().as_ref().unwrap().courses.len(), 1);
    session.set_real_time(true);
    assert_eq!(session.read().as_ref().unwrap().courses.len(), 2);
}

#[test]
fn export_publishes_and_gives_the_text() {
    let mut session = Session::new();
    session.set_real_time(true);
    session.set_ctt2_mode(true);
    let text = session.export_text();
    assert_eq!(text, "{\n  [\"CTT2Mode\"] = true,\n}");
    assert!(session.read().as_ref().unwrap().ctt2_mode);
}

#[test]
fn refresh_publishes_whatever_the_mode() {
    let mut session = Session::new();
    session.add_record("Loop", Mode::Bounce, "Cid", t(9_123));
    session.refresh();
    assert!(!session.real_time_enabled());
    assert_eq!(session.read().as_ref().unwrap().courses.len(), 1);
}

#[test]
fn a_record_without_course_or_player_is_not_taken() {
    let mut session = Session::new();
    assert!(!session.add_record("", Mode::Bounce, "Cid", t(9_123)));
    assert!(!session.add_record("Loop", Mode::Bounce, "", t(9_123)));
    assert!(!session.add_record("", Mode::Bounce, "", t(9_123)));
    assert_eq!(session.board().store.len(), 0);
    assert!(session.add_record(" ", Mode::Bounce, " ", t(9_123)));
    assert_eq!(session.board().store.len(), 1);
}

#[test]
fn an_unknown_category_is_not_taken() {
    let mut session = Session::new();
    assert!(!session.add_main_ob_record("X", t(5_000), "Fast"));
    assert!(session.board().ranked.is_empty());
    assert!(session.add_main_ob_record("X", t(5_000), "Bounceless"));
    assert_eq!(session.board().ranked.entries(Category::Bounceless).len(), 1);
}

#[test]
fn deleting_an_absent_record_changes_nothing() {
    let mut session = Session::new();
    session.add_record("Loop", Mode::Bounce, "Cid", t(9_123));
    assert!(!session.delete_record("Loop", Mode::Bounceless));
    assert_eq!(session.board().store.len(), 1);
}

#[test]
fn a_text_that_is_not_read_leaves_the_session_as_it_is() {
    let mut session = Session::new();
    session.add_record("Loop", Mode::Bounce, "Cid", t(9_123));
    assert!(!session.import_text("not a table"));
    assert_eq!(session.board().store.len(), 1);
    assert!(session.read().is_none());
}

#[test]
fn the_mirror_keeps_a_copy() {
    let mut board = Leaderboard::new();
    let mut mirror = ExportMirror::new();
    assert!(mirror.read().is_none());
    board.store.upsert("Loop", Mode::Bounce, "Cid", t(9_123));
    mirror.refresh(&board);
    board.store.upsert("Spiral", Mode::Bounce, "Ann", t(1_000));
    board.store.upsert("Loop", Mode::Bounce, "Dan", t(1));
    let snapshot = mirror.read().as_ref().unwrap();
    assert_eq!(snapshot.courses.len(), 1);
    assert_eq!(snapshot.courses[0].bounce.as_ref().unwrap().player, "Cid");
    mirror.refresh(&board);
    assert_eq!(mirror.read().as_ref().unwrap().courses.len(), 2);
}
