use obby_records::store::{Mode, RecordStore};
use obby_records::time::Time;

fn t(millis: i64) -> Time {
    Time::from_millis(millis)
}

#[test]
fn a_slower_time_does_not_replace_the_record() {
    let mut store = RecordStore::new();
    store.upsert("Spiral", Mode::Bounce, "Ann", t(12_500));
    store.upsert("Spiral", Mode::Bounce, "Bob", t(15_000));
    assert_eq!(store.len(), 1);
    let record = store.get("Spiral", Mode::Bounce).unwrap();
    assert_eq!(record.player, "Ann");
    assert_eq!(record.time, t(12_500));
}

#[test]
fn a_faster_time_replaces_the_record_in_place() {
    let mut store = RecordStore::new();
    store.upsert("Spiral", Mode::Bounce, "Ann", t(12_500));
    store.upsert("Loop", Mode::Bounce, "Cid", t(9_123));
    store.upsert("Spiral", Mode::Bounce, "Bob", t(12_499));
    assert_eq!(store.len(), 2);
    let all = store.all();
    assert_eq!(all[0].course, "Spiral");
    assert_eq!(all[0].player, "Bob");
    assert_eq!(all[0].time, t(12_499));
    assert_eq!(all[1].course, "Loop");
    assert_eq!(all[1].player, "Cid");
}

#[test]
fn an_equal_time_keeps_the_first_holder() {
    let mut store = RecordStore::new();
    store.upsert("Spiral", Mode::Bounceless, "Ann", t(10_000));
    store.upsert("Spiral", Mode::Bounceless, "Bob", t(10_000));
    let record = store.get("Spiral", Mode::Bounceless).unwrap();
    assert_eq!(record.player, "Ann");
}

#[test]
fn the_two_modes_of_a_course_are_separate_records() {
    let mut store = RecordStore::new();
    store.upsert("Spiral", Mode::Bounce, "Ann", t(10_000));
    store.upsert("Spiral", Mode::Bounceless, "Bob", t(20_000));
    assert_eq!(store.len(), 2);
    assert_eq!(store.get("Spiral", Mode::Bounce).unwrap().player, "Ann");
    assert_eq!(store.get("Spiral", Mode::Bounceless).unwrap().player, "Bob");
    assert!(store.get("spiral", Mode::Bounce).is_none());
}

#[test]
fn the_store_holds_the_least_time_of_every_key() {
    let calls: [(&str, Mode, &str, i64); 8] = [
        ("A", Mode::Bounce, "runner1", 5_000),
        ("B", Mode::Bounce, "runner2", 7_000),
        ("A", Mode::Bounce, "runner3", 4_000),
        ("A", Mode::Bounceless, "runner4", 9_000),
        ("B", Mode::Bounce, "runner5", 7_000),
        ("A", Mode::Bounce, "runner6", 4_000),
        ("B", Mode::Bounce, "runner7", 8_000),
        ("A", Mode::Bounceless, "runner8", 1),
    ];
    let mut store = RecordStore::new();
    for (course, mode, player, millis) in calls {
        store.upsert(course, mode, player, t(millis));
    }
    assert_eq!(store.len(), 3);
    let a = store.get("A", Mode::Bounce).unwrap();
    assert_eq!((a.player.as_str(), a.time), ("runner3", t(4_000)));
    let b = store.get("B", Mode::Bounce).unwrap();
    assert_eq!((b.player.as_str(), b.time), ("runner2", t(7_000)));
    let c = store.get("A", Mode::Bounceless).unwrap();
    assert_eq!((c.player.as_str(), c.time), ("runner8", t(1)));
}

#[test]
fn delete_removes_the_record_of_the_key_only() {
    let mut store = RecordStore::new();
    store.upsert("A", Mode::Bounce, "runner1", t(5_000));
    store.upsert("A", Mode::Bounceless, "runner2", t(6_000));
    store.upsert("B", Mode::Bounce, "runner3", t(7_000));
    assert!(store.delete("A", Mode::Bounceless));
    assert_eq!(store.len(), 2);
    assert!(store.get("A", Mode::Bounceless).is_none());
    assert_eq!(store.all()[0].player, "runner1");
    assert_eq!(store.all()[1].player, "runner3");
}

#[test]
fn delete_of_an_absent_key_changes_nothing() {
    let mut store = RecordStore::new();
    store.upsert("A", Mode::Bounce, "runner1", t(5_000));
    assert!(!store.delete("A", Mode::Bounceless));
    assert!(!store.delete("B", Mode::Bounce));
    assert_eq!(store.len(), 1);
}

#[test]
fn a_new_store_is_empty() {
    let store = RecordStore::new();
    assert_eq!(store.len(), 0);
    assert!(store.all().is_empty());
}

#[test]
fn only_the_name_bounce_is_the_bounce_mode() {
    assert_eq!(Mode::from_name("Bounce"), Mode::Bounce);
    assert_eq!(Mode::from_name("Bounceless"), Mode::Bounceless);
    assert_eq!(Mode::from_name("bounce"), Mode::Bounceless);
    assert_eq!(Mode::from_name("NoPlat"), Mode::Bounceless);
    assert_eq!(Mode::from_name(""), Mode::Bounceless);
    assert_eq!(Mode::Bounce.name(), "Bounce");
    assert_eq!(Mode::Bounceless.name(), "Bounceless");
}
