use obby_records::board::Leaderboard;
use obby_records::ranked::Category;
use obby_records::store::Mode;
use obby_records::time::Time;

fn t(millis: i64) -> Time {
    Time::from_millis(millis)
}

#[test]
fn records_are_grouped_by_course_in_order_of_first_submission() {
    let mut board = Leaderboard::new();
    board.store.upsert("Spiral", Mode::Bounceless, "Bob", t(15_000));
    board.store.upsert("Loop", Mode::Bounce, "Cid", t(9_123));
    board.store.upsert("Spiral", Mode::Bounce, "Ann", t(12_500));
    let table = board.export_table();
    assert!(!table.ctt2_mode);
    assert!(table.main_obby.is_none());
    assert_eq!(table.courses.len(), 2);
    assert_eq!(table.courses[0].course, "Spiral");
    let bounce = table.courses[0].bounce.as_ref().unwrap();
    assert_eq!((bounce.player.as_str(), bounce.time), ("Ann", t(12_500)));
    let bounceless = table.courses[0].bounceless.as_ref().unwrap();
    assert_eq!((bounceless.player.as_str(), bounceless.time), ("Bob", t(15_000)));
    assert_eq!(table.courses[1].course, "Loop");
    assert!(table.courses[1].bounce.is_some());
    assert!(table.courses[1].bounceless.is_none());
}

#[test]
fn only_categories_with_entries_are_exported() {
    let mut board = Leaderboard::new();
    board.ctt2_mode = true;
    assert!(board.export_table().main_obby.is_none());
    board.ranked.insert("NoPlat", "n", t(3_000));
    board.ranked.insert("Bounce", "b2", t(2_000));
    board.ranked.insert("Bounce", "b1", t(1_000));
    let table = board.export_table();
    assert!(table.ctt2_mode);
    let main = table.main_obby.unwrap();
    assert_eq!(main.len(), 2);
    assert_eq!(main[0].category, Category::Bounce);
    assert_eq!(main[0].entries.len(), 2);
    assert_eq!(main[0].entries[0].player, "b1");
    assert_eq!(main[0].entries[1].player, "b2");
    assert_eq!(main[1].category, Category::NoPlat);
    assert_eq!(main[1].entries[0].time, t(3_000));
    board.ctt2_mode = false;
    assert!(board.export_table().main_obby.is_none());
}

#[test]
fn the_tree_of_a_board_renders_to_its_text() {
    let mut board = Leaderboard::new();
    board.ctt2_mode = true;
    board.store.upsert("Loop", Mode::Bounce, "Cid", t(9_123));
    board.ranked.insert("Bounce", "X", t(5_000));
    let tree = board.to_value();
    assert_eq!(obby_records::render::render(&tree), board.to_text());
    assert_eq!(
        obby_records::render::render(&board.export_table().to_value()),
        board.to_text()
    );
}
