use obby_records::board::Leaderboard;
use obby_records::parse::parse;
use obby_records::render::render;
use obby_records::store::Mode;
use obby_records::text::{chars_of, same_text};
use obby_records::time::Time;
use obby_records::value::{Field, Value};

fn t(millis: i64) -> Time {
    Time::from_millis(millis)
}

fn squeeze(text: &str) -> String {
    text.split_whitespace().collect::<Vec<&str>>().join(" ")
}

#[test]
fn times_are_written_with_three_digits_behind_the_point() {
    assert_eq!(t(12_500).to_text(), "12.500");
    assert_eq!(t(9_123).to_text(), "9.123");
    assert_eq!(t(5_000).to_text(), "5.000");
    assert_eq!(t(0).to_text(), "0.000");
    assert_eq!(t(5).to_text(), "0.005");
    assert_eq!(t(45).to_text(), "0.045");
    assert_eq!(t(999).to_text(), "0.999");
    assert_eq!(t(1_000).to_text(), "1.000");
    assert_eq!(t(-1_500).to_text(), "-1.500");
    assert_eq!(t(-7).to_text(), "-0.007");
    assert_eq!(t(9_999_000).to_text(), "9999.000");
    assert_eq!(t(123_456_789_012).to_text(), "123456789.012");
    assert_eq!(t(i64::MAX).to_text(), "9223372036854775.807");
    assert_eq!(t(i64::MIN).to_text(), "-9223372036854775.808");
    assert_eq!(Time::fallback(), t(9_999_000));
}

#[test]
fn write_to_adds_to_what_is_there() {
    let mut out = String::from("time: ");
    t(1_234).write_to(&mut out);
    assert_eq!(out, "time: 1.234");
}

#[test]
fn a_board_is_written_in_the_fixed_layout() {
    let mut board = Leaderboard::new();
    board.ctt2_mode = true;
    board.store.upsert("Loop", Mode::Bounce, "Cid", t(9_123));
    board.ranked.insert("Bounce", "X", t(5_000));
    let text = board.to_text();
    let expected = "{\n  [\"CTT2Mode\"] = true,\n  [\"Loop\"] = {\n    [\"Bounce\"] = { \"Cid\", 9.123 },\n  },\n  [\"MainObby\"] = {\n    [\"Bounce\"] = {\n      { \"X\", 5.000 },\n    },\n  },\n}";
    assert_eq!(text, expected);
    let flat = squeeze(&text);
    assert!(flat.contains("[\"Loop\"] = { [\"Bounce\"] = { \"Cid\", 9.123 }, }"));
    assert!(flat.contains("[\"MainObby\"] = { [\"Bounce\"] = { { \"X\", 5.000 }, }, }"));
}

#[test]
fn both_modes_of_a_course_stand_in_one_block() {
    let mut board = Leaderboard::new();
    board.store.upsert("Spiral", Mode::Bounceless, "Bob", t(15_000));
    board.store.upsert("Loop", Mode::Bounce, "Cid", t(9_123));
    board.store.upsert("Spiral", Mode::Bounce, "Ann", t(12_500));
    let expected = "{\n  [\"CTT2Mode\"] = false,\n  [\"Spiral\"] = {\n    [\"Bounce\"] = { \"Ann\", 12.500 },\n    [\"Bounceless\"] = { \"Bob\", 15.000 },\n  },\n  [\"Loop\"] = {\n    [\"Bounce\"] = { \"Cid\", 9.123 },\n  },\n}";
    assert_eq!(board.to_text(), expected);
}

#[test]
fn an_empty_board_is_written_with_the_flag_alone() {
    let board = Leaderboard::new();
    assert_eq!(board.to_text(), "{\n  [\"CTT2Mode\"] = false,\n}");
}

#[test]
fn ranked_lists_are_left_out_while_the_flag_is_off() {
    let mut board = Leaderboard::new();
    board.ranked.insert("NoPlat", "X", t(5_000));
    assert_eq!(board.to_text(), "{\n  [\"CTT2Mode\"] = false,\n}");
    board.ctt2_mode = true;
    let expected = "{\n  [\"CTT2Mode\"] = true,\n  [\"MainObby\"] = {\n    [\"NoPlat\"] = {\n      { \"X\", 5.000 },\n    },\n  },\n}";
    assert_eq!(board.to_text(), expected);
}

#[test]
fn empty_ranked_lists_are_left_out_with_the_flag_on() {
    let mut board = Leaderboard::new();
    board.ctt2_mode = true;
    assert_eq!(board.to_text(), "{\n  [\"CTT2Mode\"] = true,\n}");
}

#[test]
fn all_three_categories_are_written_in_their_order() {
    let mut board = Leaderboard::new();
    board.ctt2_mode = true;
    board.ranked.insert("NoPlat", "c", t(3_000));
    board.ranked.insert("Bounceless", "b", t(2_000));
    board.ranked.insert("Bounce", "a2", t(1_500));
    board.ranked.insert("Bounce", "a1", t(1_000));
    let expected = "{\n  [\"CTT2Mode\"] = true,\n  [\"MainObby\"] = {\n    [\"Bounce\"] = {\n      { \"a1\", 1.000 },\n      { \"a2\", 1.500 },\n    },\n    [\"Bounceless\"] = {\n      { \"b\", 2.000 },\n    },\n    [\"NoPlat\"] = {\n      { \"c\", 3.000 },\n    },\n  },\n}";
    assert_eq!(board.to_text(), expected);
}

fn positional(value: Value) -> Field {
    Field { key: None, value }
}

fn keyed(key: &str, value: Value) -> Field {
    Field { key: Some(key.to_string()), value }
}

#[test]
fn render_writes_any_tree() {
    let pair = Value::Table(vec![
        positional(Value::Text("Ann".to_string())),
        positional(Value::Number(t(1_250))),
        positional(Value::Bool(false)),
    ]);
    assert_eq!(render(&pair), "{ \"Ann\", 1.250, false }");
    assert_eq!(render(&Value::Table(vec![])), "{\n}");
    assert_eq!(render(&Value::Bool(true)), "true");
    assert_eq!(render(&Value::Number(t(-5))), "-0.005");
    assert_eq!(render(&Value::Text("x y".to_string())), "\"x y\"");
    let nested = Value::Table(vec![
        keyed("a", Value::Table(vec![keyed("b", Value::Table(vec![]))])),
        positional(Value::Bool(true)),
    ]);
    assert_eq!(render(&nested), "{\n  [\"a\"] = {\n    [\"b\"] = {\n    },\n  },\n  true,\n}");
}

fn number_of(text: &str) -> Option<i64> {
    let table = parse(&format!("{{ {} }}", text))?;
    match table {
        Value::Table(fields) => match &fields[0].value {
            Value::Number(time) => Some(time.millis),
            _ => None,
        },
        _ => None,
    }
}

#[test]
fn numbers_are_read_as_thousandths() {
    assert_eq!(number_of("12.500"), Some(12_500));
    assert_eq!(number_of("12.5"), Some(12_500));
    assert_eq!(number_of("12"), Some(12_000));
    assert_eq!(number_of("12."), Some(12_000));
    assert_eq!(number_of("0.005"), Some(5));
    assert_eq!(number_of("007.010"), Some(7_010));
    assert_eq!(number_of("-1.5"), Some(-1_500));
    assert_eq!(number_of("-0.000"), Some(0));
    assert_eq!(number_of("9999.000"), Some(9_999_000));
}

#[test]
fn digits_behind_the_third_round_to_the_nearest_thousandth() {
    assert_eq!(number_of("1.2344"), Some(1_234));
    assert_eq!(number_of("1.2345"), Some(1_235));
    assert_eq!(number_of("1.23449999"), Some(1_234));
    assert_eq!(number_of("0.9995"), Some(1_000));
    assert_eq!(number_of("-0.9996"), Some(-1_000));
    assert_eq!(number_of("3.14159265"), Some(3_142));
}

#[test]
fn numbers_that_do_not_fit_are_not_read() {
    assert_eq!(number_of("9223372036854775.807"), Some(i64::MAX));
    assert_eq!(number_of("9223372036854775.808"), None);
    assert_eq!(number_of("-9223372036854775.808"), Some(i64::MIN));
    assert_eq!(number_of("-9223372036854775.809"), None);
    assert_eq!(number_of("9223372036854776"), None);
    assert_eq!(number_of("99999999999999999999999999999999999999"), None);
    assert_eq!(number_of("9223372036854775.8074"), Some(i64::MAX));
    assert_eq!(number_of("9223372036854775.8075"), None);
}

#[test]
fn malformed_numbers_are_not_read() {
    assert_eq!(number_of("."), None);
    assert_eq!(number_of(".5"), None);
    assert_eq!(number_of("-"), None);
    assert_eq!(number_of("1e3"), None);
    assert_eq!(number_of("1.5.2"), None);
    assert_eq!(number_of("12abc"), None);
    assert_eq!(number_of("+1"), None);
}

fn text_of(literal: &str) -> Option<String> {
    match parse(&format!("{{{}}}", literal))? {
        Value::Table(fields) => match &fields[0].value {
            Value::Text(s) => Some(s.clone()),
            _ => None,
        },
        _ => None,
    }
}

#[test]
fn strings_are_read_with_their_escapes() {
    assert_eq!(text_of("\"Ann\""), Some("Ann".to_string()));
    assert_eq!(text_of("\"\""), Some(String::new()));
    assert_eq!(text_of("\"a b, c = {d}\""), Some("a b, c = {d}".to_string()));
    assert_eq!(text_of("\"q\\\"uote\""), Some("q\"uote".to_string()));
    assert_eq!(text_of("\"back\\\\slash\""), Some("back\\slash".to_string()));
    assert_eq!(text_of("\"l1\\nl2\\tx\\ry\\'z\""), Some("l1\nl2\tx\ry'z".to_string()));
    assert_eq!(text_of("\"h\u{e9}llo \u{4e16}\""), Some("h\u{e9}llo \u{4e16}".to_string()));
    assert_eq!(text_of("\"bad\\qescape\""), None);
    assert_eq!(text_of("\"line\nbreak\""), None);
    assert_eq!(text_of("\"open"), None);
    assert_eq!(text_of("\"ends with backslash\\"), None);
}

#[test]
fn a_table_is_read_with_keys_and_places() {
    let value = parse(" {\n [ \"k\" ]\t= true ; false , [\"t\"]={ 1 , \"x\" } }\r\n").unwrap();
    let fields = match value {
        Value::Table(fields) => fields,
        _ => panic!("no table"),
    };
    assert_eq!(fields.len(), 3);
    assert_eq!(fields[0].key.as_deref(), Some("k"));
    assert!(matches!(fields[0].value, Value::Bool(true)));
    assert_eq!(fields[1].key, None);
    assert!(matches!(fields[1].value, Value::Bool(false)));
    assert_eq!(fields[2].key.as_deref(), Some("t"));
    match &fields[2].value {
        Value::Table(inner) => {
            assert_eq!(inner.len(), 2);
            assert!(matches!(inner[0].value, Value::Number(n) if n.millis == 1_000));
            assert!(matches!(&inner[1].value, Value::Text(s) if s == "x"));
        },
        _ => panic!("no inner table"),
    }
}

#[test]
fn the_empty_table_is_read() {
    assert!(matches!(parse("{}"), Some(Value::Table(fields)) if fields.is_empty()));
    assert!(matches!(parse("  {  }  "), Some(Value::Table(fields)) if fields.is_empty()));
}

#[test]
fn text_that_is_no_table_literal_is_not_read() {
    for text in [
        "",
        "   ",
        "true",
        "12.5",
        "\"text\"",
        "{",
        "}",
        "{ true",
        "{ true, ",
        "{ , }",
        "{ true false }",
        "{ true,, }",
        "{} {}",
        "{} x",
        "{ [\"k\"] true }",
        "{ [\"k\" = true }",
        "{ [k] = true }",
        "{ k = true }",
        "{ nil }",
        "{ truex }",
        "return {}",
        "{ -- note\n }",
    ] {
        assert!(parse(text).is_none(), "read: {:?}", text);
    }
}

#[test]
fn tables_nest_up_to_the_depth_limit() {
    let deep = |n: usize| format!("{}{}", "{".repeat(n), "}".repeat(n));
    assert!(parse(&deep(1)).is_some());
    assert!(parse(&deep(32)).is_some());
    assert!(parse(&deep(33)).is_none());
    assert!(parse(&deep(5000)).is_none());
}

#[test]
fn what_render_writes_parse_reads_back() {
    let tree = Value::Table(vec![
        keyed("CTT2Mode", Value::Bool(true)),
        keyed(
            "Loop",
            Value::Table(vec![keyed(
                "Bounce",
                Value::Table(vec![
                    positional(Value::Text("Cid".to_string())),
                    positional(Value::Number(t(9_123))),
                ]),
            )]),
        ),
        keyed("Empty", Value::Table(vec![])),
        positional(Value::Number(t(-1))),
    ]);
    let text = render(&tree);
    let back = parse(&text).unwrap();
    assert_eq!(render(&back), text);
    assert_eq!(format!("{:?}", back), format!("{:?}", tree));
}

#[test]
fn same_text_compares_character_by_character() {
    assert!(same_text("", ""));
    assert!(same_text("Bounce", "Bounce"));
    assert!(!same_text("Bounce", "Bounceless"));
    assert!(!same_text("Bounceless", "Bounce"));
    assert!(!same_text("Bounce", "Bouncf"));
    assert!(!same_text("a", ""));
    assert!(same_text("h\u{e9}", "h\u{e9}"));
}

#[test]
fn chars_of_gives_the_characters_in_order() {
    assert_eq!(chars_of("a\u{e9}{"), vec!['a', '\u{e9}', '{']);
    assert!(chars_of("").is_empty());
}

#[test]
fn the_text_of_a_time_is_read_back_as_the_time() {
    let mut seed: u64 = 11;
    let mut samples: Vec<i64> = vec![0, 1, -1, 999, 1_000, -999, -1_000, i64::MAX, i64::MIN];
    for _ in 0..500 {
        seed = seed.wrapping_mul(6364136223846793005).wrapping_add(1442695040888963407);
        let shift = (seed >> 58) as u32;
        samples.push((seed as i64) >> shift);
    }
    for millis in samples {
        let size = millis.unsigned_abs();
        let sign = if millis < 0 { "-" } else { "" };
        let expected = format!("{}{}.{:03}", sign, size / 1_000, size % 1_000);
        let text = t(millis).to_text();
        assert_eq!(text, expected);
        assert_eq!(number_of(&text), Some(millis));
    }
}
