use obby_records::board::Leaderboard;
use obby_records::parse::parse;
use obby_records::ranked::Category;
use obby_records::store::Mode;
use obby_records::time::Time;
use obby_records::value::{Field, Value};

fn t(millis: i64) -> Time {
    Time::from_millis(millis)
}

fn holder(board: &Leaderboard, course: &str, mode: Mode) -> Option<(String, i64)> {
    board.store.get(course, mode).map(|r| (r.player.clone(), r.time.millis))
}

fn ranked(board: &Leaderboard, category: Category) -> Vec<(String, i64)> {
    board.ranked.entries(category).iter().map(|e| (e.player.clone(), e.time.millis)).collect()
}

#[test]
fn a_written_board_is_read_back() {
    let mut board = Leaderboard::new();
    board.ctt2_mode = true;
    board.store.upsert("Spiral", Mode::Bounceless, "Bob", t(15_000));
    board.store.upsert("Loop", Mode::Bounce, "Cid", t(9_123));
    board.store.upsert("Spiral", Mode::Bounce, "Ann", t(12_500));
    board.store.upsert("Tower of Doom", Mode::Bounceless, "", t(0));
    for i in 0..12i64 {
        board.ranked.insert("Bounce", &format!("b{}", i), t(1_000 + (i % 4) * 10));
    }
    board.ranked.insert("NoPlat", "n", t(77_777));
    let text = board.to_text();

    let mut back = Leaderboard::new();
    assert!(back.import_text(&text));
    assert!(!back.ctt2_mode);
    assert_eq!(back.store.len(), 4);
    for record in board.store.all() {
        let found = back.store.get(&record.course, record.mode).unwrap();
        assert_eq!(found.player, record.player);
        assert_eq!(found.time, record.time);
    }
    for category in [Category::Bounce, Category::Bounceless, Category::NoPlat] {
        assert_eq!(ranked(&back, category), ranked(&board, category));
    }
    back.ctt2_mode = true;
    assert_eq!(back.to_text().len(), text.len());
}

#[test]
fn a_malformed_entry_is_skipped_and_the_rest_is_taken() {
    let mut board = Leaderboard::new();
    board.store.upsert("Bad", Mode::Bounce, "Old", t(3_000));
    let text = "{ [\"Good\"] = { [\"Bounce\"] = { \"Ann\", 12.500 } }, [\"Bad\"] = 17, }";
    assert!(board.import_text(text));
    assert_eq!(board.store.len(), 2);
    assert_eq!(holder(&board, "Good", Mode::Bounce), Some(("Ann".to_string(), 12_500)));
    assert_eq!(holder(&board, "Bad", Mode::Bounce), Some(("Old".to_string(), 3_000)));
}

#[test]
fn a_malformed_mode_entry_is_skipped_within_a_course() {
    let mut board = Leaderboard::new();
    let text = "{ [\"C\"] = { [\"Bounce\"] = \"oops\", [\"Bounceless\"] = { \"Bob\", 2 }, { \"x\", 1 }, true } }";
    assert!(board.import_text(text));
    assert_eq!(board.store.len(), 1);
    assert_eq!(holder(&board, "C", Mode::Bounceless), Some(("Bob".to_string(), 2_000)));
}

#[test]
fn a_time_that_is_no_number_is_read_as_the_fallback() {
    let mut board = Leaderboard::new();
    let text = "{ [\"C\"] = { [\"Bounce\"] = { \"Ann\", \"fast\" }, [\"Bounceless\"] = { \"Bob\" } },
                 [\"MainObby\"] = { [\"NoPlat\"] = { { \"Cid\", true }, { }, { 5, 6 } } } }";
    assert!(board.import_text(text));
    assert_eq!(holder(&board, "C", Mode::Bounce), Some(("Ann".to_string(), 9_999_000)));
    assert_eq!(holder(&board, "C", Mode::Bounceless), Some(("Bob".to_string(), 9_999_000)));
    assert_eq!(
        ranked(&board, Category::NoPlat),
        vec![
            (String::new(), 6_000),
            ("Cid".to_string(), 9_999_000),
            (String::new(), 9_999_000),
        ]
    );
}

#[test]
fn any_mode_name_but_bounce_is_bounceless() {
    let mut board = Leaderboard::new();
    let text = "{ [\"C\"] = { [\"NoBounce\"] = { \"Ann\", 5 }, [\"bounce\"] = { \"Bob\", 4 }, [\"Bounce\"] = { \"Cid\", 9 } } }";
    assert!(board.import_text(text));
    assert_eq!(board.store.len(), 2);
    assert_eq!(holder(&board, "C", Mode::Bounceless), Some(("Bob".to_string(), 4_000)));
    assert_eq!(holder(&board, "C", Mode::Bounce), Some(("Cid".to_string(), 9_000)));
}

#[test]
fn the_mode_flag_is_not_restored() {
    let mut board = Leaderboard::new();
    assert!(board.import_text("{ [\"CTT2Mode\"] = true }"));
    assert!(!board.ctt2_mode);
    assert_eq!(board.store.len(), 0);
    board.ctt2_mode = true;
    assert!(board.import_text("{ [\"CTT2Mode\"] = false, [\"CTT2Mode\"] = { [\"Bounce\"] = { \"a\", 1 } } }"));
    assert!(board.ctt2_mode);
    assert_eq!(board.store.len(), 0);
}

#[test]
fn a_text_that_is_not_read_changes_nothing() {
    let mut board = Leaderboard::new();
    board.store.upsert("A", Mode::Bounce, "Ann", t(1_000));
    board.ranked.insert("Bounce", "X", t(5_000));
    for text in [
        "",
        "hello",
        "17",
        "\"{}\"",
        "{ [\"B\"] = { [\"Bounce\"] = { \"Bob\", 0.5 } }, [\"A\"] = { [\"Bounce\"] = { \"Cid\", 0.1 } }",
        "{ [\"A\"] = { [\"Bounce\"] = { \"Cid\", 0.1 } } } trailing",
    ] {
        assert!(!board.import_text(text));
        assert_eq!(board.store.len(), 1);
        assert_eq!(holder(&board, "A", Mode::Bounce), Some(("Ann".to_string(), 1_000)));
        assert_eq!(ranked(&board, Category::Bounce), vec![("X".to_string(), 5_000)]);
    }
}

#[test]
fn imported_times_compete_with_those_held() {
    let mut board = Leaderboard::new();
    board.store.upsert("A", Mode::Bounce, "Ann", t(1_000));
    board.store.upsert("B", Mode::Bounce, "Bob", t(1_000));
    let text = "{ [\"A\"] = { [\"Bounce\"] = { \"Cid\", 0.999 } }, [\"B\"] = { [\"Bounce\"] = { \"Dan\", 1.000 } } }";
    assert!(board.import_text(text));
    assert_eq!(holder(&board, "A", Mode::Bounce), Some(("Cid".to_string(), 999)));
    assert_eq!(holder(&board, "B", Mode::Bounce), Some(("Bob".to_string(), 1_000)));
}

#[test]
fn ranked_entries_are_inserted_in_order_and_cut_at_capacity() {
    let mut entries = String::new();
    for i in 0..15 {
        entries.push_str(&format!("{{ \"runner{}\", {} }}, ", i, 20 - i));
    }
    let text = format!(
        "{{ [\"MainObby\"] = {{ [\"NoPlat\"] = {{ {} }}, [\"Other\"] = {{ {{ \"z\", 1 }} }}, [\"Bounce\"] = 5 }} }}",
        entries
    );
    let mut board = Leaderboard::new();
    assert!(board.import_text(&text));
    let list = ranked(&board, Category::NoPlat);
    assert_eq!(list.len(), 10);
    assert_eq!(list[0], ("runner14".to_string(), 6_000));
    assert_eq!(list[9], ("runner5".to_string(), 15_000));
    assert!(ranked(&board, Category::Bounce).is_empty());
    assert!(ranked(&board, Category::Bounceless).is_empty());
}

#[test]
fn a_main_obby_that_is_no_table_is_skipped() {
    let mut board = Leaderboard::new();
    assert!(board.import_text("{ [\"MainObby\"] = \"none\", [\"A\"] = { [\"Bounce\"] = { \"Ann\", 1 } } }"));
    assert!(board.ranked.is_empty());
    assert_eq!(board.store.len(), 1);
}

#[test]
fn import_value_takes_a_tree_built_by_hand() {
    let pair = |player: &str, millis: i64| {
        Value::Table(vec![
            Field { key: None, value: Value::Text(player.to_string()) },
            Field { key: None, value: Value::Number(t(millis)) },
        ])
    };
    let tree = Value::Table(vec![
        Field { key: None, value: pair("ignored", 1) },
        Field {
            key: Some("Loop".to_string()),
            value: Value::Table(vec![Field { key: Some("Bounce".to_string()), value: pair("Cid", 9_123) }]),
        },
        Field {
            key: Some("MainObby".to_string()),
            value: Value::Table(vec![Field {
                key: Some("Bounceless".to_string()),
                value: Value::Table(vec![
                    Field { key: None, value: pair("slow", 8_000) },
                    Field { key: Some("k".to_string()), value: pair("keyed", 1) },
                    Field { key: None, value: Value::Bool(true) },
                    Field { key: None, value: pair("quick", 7_000) },
                ]),
            }]),
        },
    ]);
    let mut board = Leaderboard::new();
    assert!(board.import_value(&tree));
    assert_eq!(holder(&board, "Loop", Mode::Bounce), Some(("Cid".to_string(), 9_123)));
    assert_eq!(board.store.len(), 1);
    assert_eq!(
        ranked(&board, Category::Bounceless),
        vec![("quick".to_string(), 7_000), ("slow".to_string(), 8_000)]
    );
    assert!(!board.import_value(&Value::Bool(true)));
    assert!(!board.import_value(&Value::Text("{}".to_string())));
    assert_eq!(board.store.len(), 1);
}

#[test]
fn parse_and_import_value_together_are_import_text() {
    let text = "{ [\"A\"] = { [\"Bounce\"] = { \"Ann\", 1.5 } } }";
    let mut one = Leaderboard::new();
    let mut two = Leaderboard::new();
    assert!(one.import_text(text));
    assert!(two.import_value(&parse(text).unwrap()));
    assert_eq!(one.to_text(), two.to_text());
    assert_eq!(holder(&one, "A", Mode::Bounce), Some(("Ann".to_string(), 1_500)));
}

struct Dice(u64);

impl Dice {
    fn roll(&mut self, sides: u64) -> u64 {
        self.0 = self.0.wrapping_mul(6364136223846793005).wrapping_add(1442695040888963407);
        (self.0 >> 33) % sides
    }
}

#[test]
fn many_boards_are_read_back_as_written() {
    let mut dice = Dice(7);
    let courses = ["Spiral", "Loop", "Tower", "Sky high", "x", "Bounce"];
    let players = ["Ann", "Bob", "Cid", "", "Dee Dee", "\u{e9}l\u{e9}ve"];
    let tags = ["Bounce", "Bounceless", "NoPlat"];
    for _ in 0..200 {
        let mut board = Leaderboard::new();
        board.ctt2_mode = true;
        for _ in 0..dice.roll(12) {
            let course = courses[dice.roll(6) as usize];
            let mode = if dice.roll(2) == 0 { Mode::Bounce } else { Mode::Bounceless };
            let player = players[dice.roll(6) as usize];
            let millis = dice.roll(100_000) as i64 - 1_000;
            board.store.upsert(course, mode, player, t(millis));
        }
        for _ in 0..dice.roll(40) {
            let tag = tags[dice.roll(3) as usize];
            let player = players[dice.roll(6) as usize];
            board.ranked.insert(tag, player, t(dice.roll(50) as i64 * 100));
        }
        let text = board.to_text();
        let mut back = Leaderboard::new();
        assert!(back.import_text(&text));
        assert_eq!(back.store.len(), board.store.len());
        for record in board.store.all() {
            assert_eq!(
                holder(&back, &record.course, record.mode),
                Some((record.player.clone(), record.time.millis))
            );
        }
        for category in [Category::Bounce, Category::Bounceless, Category::NoPlat] {
            assert_eq!(ranked(&back, category), ranked(&board, category));
        }
    }
}

#[test]
fn a_name_with_a_quote_is_not_read_back() {
    let mut board = Leaderboard::new();
    board.store.upsert("Loop", Mode::Bounce, "the \"best\"", t(1_000));
    let text = board.to_text();
    assert!(text.contains("{ \"the \"best\"\", 1.000 }"));
    let mut back = Leaderboard::new();
    assert!(!back.import_text(&text));
    assert_eq!(back.store.len(), 0);
}

#[test]
fn ranked_lists_written_with_the_flag_off_are_not_read_back() {
    let mut board = Leaderboard::new();
    board.ranked.insert("Bounce", "X", t(5_000));
    let mut back = Leaderboard::new();
    assert!(back.import_text(&board.to_text()));
    assert!(back.ranked.is_empty());
}
