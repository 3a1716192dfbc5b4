use obby_records::ranked::{Category, RankedLists};
use obby_records::time::Time;

fn t(millis: i64) -> Time {
    Time::from_millis(millis)
}

#[test]
fn thirteen_rising_times_keep_the_twelve_least() {
    let mut lists = RankedLists::new();
    for i in 1..=13i64 {
        assert!(lists.insert("Bounce", &format!("runner{}", i), t(i * 1_000)));
    }
    let list = lists.entries(Category::Bounce);
    assert_eq!(list.len(), 12);
    for (i, entry) in list.iter().enumerate() {
        assert_eq!(entry.time, t((i as i64 + 1) * 1_000));
        assert_eq!(entry.player, format!("runner{}", i + 1));
    }
}

#[test]
fn thirteen_falling_times_drop_the_slowest() {
    let mut lists = RankedLists::new();
    for i in (1..=13i64).rev() {
        lists.insert_in(Category::Bounce, &format!("runner{}", i), t(i * 1_000));
    }
    let list = lists.entries(Category::Bounce);
    assert_eq!(list.len(), 12);
    assert_eq!(list[0].time, t(1_000));
    assert_eq!(list[11].time, t(12_000));
}

#[test]
fn each_category_has_its_own_capacity() {
    assert_eq!(Category::Bounce.capacity(), 12);
    assert_eq!(Category::Bounceless.capacity(), 11);
    assert_eq!(Category::NoPlat.capacity(), 10);
    let mut lists = RankedLists::new();
    for i in 0..20i64 {
        lists.insert("Bounce", "a", t(i));
        lists.insert("Bounceless", "b", t(i));
        lists.insert("NoPlat", "c", t(i));
    }
    let (bounce, bounceless, noplat) = lists.categories();
    assert_eq!(bounce.len(), 12);
    assert_eq!(bounceless.len(), 11);
    assert_eq!(noplat.len(), 10);
    assert_eq!(noplat[9].time, t(9));
}

#[test]
fn lists_stay_sorted_whatever_the_order_of_insertion() {
    let times = [50i64, 10, 40, 10, 30, 20, 60, 5, 45, 15, 25, 35, 55, 1, 65];
    let mut lists = RankedLists::new();
    for (i, millis) in times.iter().enumerate() {
        lists.insert("NoPlat", &format!("runner{}", i), t(*millis));
        let list = lists.entries(Category::NoPlat);
        assert!(list.len() <= 10);
        for pair in list.windows(2) {
            assert!(pair[0].time.millis <= pair[1].time.millis);
        }
    }
    let list = lists.entries(Category::NoPlat);
    let kept: Vec<i64> = list.iter().map(|e| e.time.millis).collect();
    assert_eq!(kept, vec![1, 5, 10, 10, 15, 20, 25, 30, 35, 40]);
}

#[test]
fn equal_times_stay_in_the_order_of_insertion() {
    let mut lists = RankedLists::new();
    lists.insert("Bounceless", "first", t(7_000));
    lists.insert("Bounceless", "second", t(7_000));
    lists.insert("Bounceless", "faster", t(6_000));
    lists.insert("Bounceless", "third", t(7_000));
    let names: Vec<&str> =
        lists.entries(Category::Bounceless).iter().map(|e| e.player.as_str()).collect();
    assert_eq!(names, vec!["faster", "first", "second", "third"]);
}

#[test]
fn the_same_player_may_stand_twice_in_a_list() {
    let mut lists = RankedLists::new();
    lists.insert("Bounce", "Ann", t(3_000));
    lists.insert("Bounce", "Ann", t(2_000));
    let list = lists.entries(Category::Bounce);
    assert_eq!(list.len(), 2);
    assert_eq!(list[0].player, "Ann");
    assert_eq!(list[1].player, "Ann");
}

#[test]
fn an_unknown_tag_is_rejected() {
    let mut lists = RankedLists::new();
    assert!(!lists.insert("Speedrun", "Ann", t(1_000)));
    assert!(!lists.insert("bounce", "Ann", t(1_000)));
    assert!(!lists.insert("", "Ann", t(1_000)));
    assert!(lists.is_empty());
}

#[test]
fn a_full_list_drops_an_entry_that_is_no_faster_than_its_last() {
    let mut lists = RankedLists::new();
    for i in 0..10i64 {
        lists.insert_in(Category::NoPlat, "runner", t(i * 10));
    }
    lists.insert_in(Category::NoPlat, "late", t(90));
    let list = lists.entries(Category::NoPlat);
    assert_eq!(list.len(), 10);
    assert_eq!(list[9].player, "runner");
    lists.insert_in(Category::NoPlat, "quick", t(89));
    let list = lists.entries(Category::NoPlat);
    assert_eq!(list[9].player, "quick");
    assert_eq!(list[8].time, t(80));
}

#[test]
fn tags_name_the_three_categories() {
    assert_eq!(Category::from_name("Bounce"), Some(Category::Bounce));
    assert_eq!(Category::from_name("Bounceless"), Some(Category::Bounceless));
    assert_eq!(Category::from_name("NoPlat"), Some(Category::NoPlat));
    assert_eq!(Category::from_name("Noplat"), None);
    assert_eq!(Category::NoPlat.name(), "NoPlat");
}
