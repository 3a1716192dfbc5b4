//! Taking a value tree, or the text of one, into a leaderboard.

use vstd::prelude::*;
use crate::board::{BoardView, Leaderboard};
use crate::parse::{document_at, parse};
use crate::ranked::{EntryView, RankedLists, RankedView};
use crate::store::{upsert_records, Mode, RecordStore, RecordView};
use crate::text::same_text;
use crate::time::{Time, FALLBACK_MILLIS};
use crate::value::{fields_view, lemma_table_view, Field, FieldView, Value, ValueView};

verus! {

/// The values without a key among the first `n` fields, in order.
pub open spec fn positional(fields: Seq<FieldView>, n: nat) -> Seq<ValueView>
    decreases n,
{
    if n == 0 || n > fields.len() {
        Seq::empty()
    } else {
        let before = positional(fields, (n - 1) as nat);
        if fields[n - 1].key is None {
            before.push(fields[n - 1].value)
        } else {
            before
        }
    }
}

/// The player of a pair: its first value without a key where that is a string, the
/// empty string otherwise.
pub open spec fn pair_player(fields: Seq<FieldView>) -> Seq<char> {
    let values = positional(fields, fields.len());
    if values.len() >= 1 && values[0] is Text {
        values[0]->Text_0
    } else {
        Seq::empty()
    }
}

/// The time of a pair: its second value without a key where that is a number, the
/// fallback of 9999.000 seconds otherwise.
pub open spec fn pair_time(fields: Seq<FieldView>) -> Time {
    let values = positional(fields, fields.len());
    if values.len() >= 2 && values[1] is Number {
        values[1]->Number_0
    } else {
        Time { millis: FALLBACK_MILLIS }
    }
}

/// The records after the first `n` fields of a course's table were taken in: each
/// field with a key and a table as its value is a submission for the mode that the
/// key names; the other fields are passed over.
pub open spec fn import_course(
    records: Seq<RecordView>,
    course: Seq<char>,
    fields: Seq<FieldView>,
    n: nat,
) -> Seq<RecordView>
    decreases n,
{
    if n == 0 || n > fields.len() {
        records
    } else {
        let before = import_course(records, course, fields, (n - 1) as nat);
        match (fields[n - 1].key, fields[n - 1].value) {
            (Some(mode), ValueView::Table(pair)) => upsert_records(
                before,
                RecordView {
                    course,
                    mode: Mode::of_name(mode),
                    player: pair_player(pair),
                    time: pair_time(pair),
                },
            ),
            _ => before,
        }
    }
}

/// The ranked lists after the first `n` fields of a category's table were taken in:
/// each field without a key and with a table as its value is an insertion under the
/// tag; the other fields are passed over.
pub open spec fn import_entries(
    ranked: RankedView,
    tag: Seq<char>,
    fields: Seq<FieldView>,
    n: nat,
) -> RankedView
    decreases n,
{
    if n == 0 || n > fields.len() {
        ranked
    } else {
        let before = import_entries(ranked, tag, fields, (n - 1) as nat);
        match (fields[n - 1].key, fields[n - 1].value) {
            (None, ValueView::Table(pair)) => before.insert_named(
                tag,
                EntryView { player: pair_player(pair), time: pair_time(pair) },
            ),
            _ => before,
        }
    }
}

/// The ranked lists after the first `n` fields of the table `MainObby` were taken
/// in: each field with a key and a table as its value holds the entries for the tag
/// that the key gives.
pub open spec fn import_main(ranked: RankedView, fields: Seq<FieldView>, n: nat) -> RankedView
    decreases n,
{
    if n == 0 || n > fields.len() {
        ranked
    } else {
        let before = import_main(ranked, fields, (n - 1) as nat);
        match (fields[n - 1].key, fields[n - 1].value) {
            (Some(tag), ValueView::Table(entries)) => import_entries(
                before,
                tag,
                entries,
                entries.len(),
            ),
            _ => before,
        }
    }
}

/// The leaderboard after one field of the outermost table was taken in. The field
/// `CTT2Mode` and fields without a key or without a table as their value change
/// nothing; `MainObby` holds the ranked lists; any other key is a course.
pub open spec fn import_field(board: BoardView, field: FieldView) -> BoardView {
    match (field.key, field.value) {
        (Some(name), ValueView::Table(inner)) => if name == "CTT2Mode"@ {
            board
        } else if name == "MainObby"@ {
            BoardView { ranked: import_main(board.ranked, inner, inner.len()), ..board }
        } else {
            BoardView { records: import_course(board.records, name, inner, inner.len()), ..board }
        },
        _ => board,
    }
}

/// The leaderboard after the first `n` fields of the outermost table were taken in.
pub open spec fn import_fields(board: BoardView, fields: Seq<FieldView>, n: nat) -> BoardView
    decreases n,
{
    if n == 0 || n > fields.len() {
        board
    } else {
        import_field(import_fields(board, fields, (n - 1) as nat), fields[n - 1])
    }
}

/// The leaderboard after a value was taken in: all fields of a table, in order; any
/// other value changes nothing.
pub open spec fn import_tree(board: BoardView, value: ValueView) -> BoardView {
    match value {
        ValueView::Table(fields) => import_fields(board, fields, fields.len()),
        _ => board,
    }
}

/// The leaderboard after a text was taken in: a text that is no table literal
/// changes nothing.
pub open spec fn import_document(board: BoardView, text: Seq<char>) -> BoardView {
    match document_at(text) {
        Some(value) => import_tree(board, value),
        None => board,
    }
}

proof fn lemma_positional_grows(fields: Seq<FieldView>, n: nat, m: nat)
    requires
        n <= m <= fields.len(),
    ensures
        positional(fields, n).len() <= positional(fields, m).len(),
        forall|k: int|
            0 <= k < positional(fields, n).len() ==> positional(fields, m)[k] == positional(
                fields,
                n,
            )[k],
    decreases m - n,
{
    if n < m {
        lemma_positional_grows(fields, n, (m - 1) as nat);
    }
}

/// The value at place `k` among those without a key.
fn nth_positional(fields: &Vec<Field>, k: usize) -> (r: Option<&Value>)
    ensures
        match r {
            Some(v) => k < positional(fields_view(fields@), fields@.len()).len() && v@
                == positional(fields_view(fields@), fields@.len())[k as int],
            None => k >= positional(fields_view(fields@), fields@.len()).len(),
        },
{
    let ghost views = fields_view(fields@);
    let mut seen: usize = 0;
    let mut i: usize = 0;
    while i < fields.len()
        invariant
            i <= fields.len(),
            views == fields_view(fields@),
            seen == positional(views, i as nat).len(),
            seen <= k,
            seen <= i,
        decreases fields.len() - i,
    {
        if fields[i].key.is_none() {
            if seen == k {
                proof {
                    lemma_positional_grows(views, (i + 1) as nat, fields@.len());
                    assert(views[i as int].value == fields@[i as int].value@);
                }
                return Some(&fields[i].value);
            }
            seen += 1;
        }
        i += 1;
    }
    None
}

fn player_in(pair: &Vec<Field>) -> (player: String)
    ensures
        player@ == pair_player(fields_view(pair@)),
{
    match nth_positional(pair, 0) {
        Some(Value::Text(name)) => name.clone(),
        _ => String::new(),
    }
}

fn time_in(pair: &Vec<Field>) -> (time: Time)
    ensures
        time == pair_time(fields_view(pair@)),
{
    match nth_positional(pair, 1) {
        Some(Value::Number(time)) => *time,
        _ => Time::fallback(),
    }
}

fn take_course(store: &mut RecordStore, course: &str, fields: &Vec<Field>)
    ensures
        final(store)@ == import_course(
            old(store)@,
            course@,
            fields_view(fields@),
            fields@.len(),
        ),
{
    let ghost views = fields_view(fields@);
    let mut i: usize = 0;
    while i < fields.len()
        invariant
            i <= fields.len(),
            views == fields_view(fields@),
            store@ == import_course(old(store)@, course@, views, i as nat),
        decreases fields.len() - i,
    {
        let field = &fields[i];
        assert(views[i as int] == field@);
        match (&field.key, &field.value) {
            (Some(mode), Value::Table(pair)) => {
                proof {
                    lemma_table_view(*pair);
                }
                let player = player_in(pair);
                store.upsert(course, Mode::from_name(mode.as_str()), player.as_str(), time_in(pair));
            },
            _ => {},
        }
        i += 1;
    }
}

fn take_entries(ranked: &mut RankedLists, tag: &str, fields: &Vec<Field>)
    ensures
        final(ranked)@ == import_entries(old(ranked)@, tag@, fields_view(fields@), fields@.len()),
{
    let ghost views = fields_view(fields@);
    let mut i: usize = 0;
    while i < fields.len()
        invariant
            i <= fields.len(),
            views == fields_view(fields@),
            ranked@ == import_entries(old(ranked)@, tag@, views, i as nat),
        decreases fields.len() - i,
    {
        let field = &fields[i];
        assert(views[i as int] == field@);
        match (&field.key, &field.value) {
            (None, Value::Table(pair)) => {
                proof {
                    lemma_table_view(*pair);
                }
                let player = player_in(pair);
                ranked.insert(tag, player.as_str(), time_in(pair));
            },
            _ => {},
        }
        i += 1;
    }
}

fn take_main(ranked: &mut RankedLists, fields: &Vec<Field>)
    ensures
        final(ranked)@ == import_main(old(ranked)@, fields_view(fields@), fields@.len()),
{
    let ghost views = fields_view(fields@);
    let mut i: usize = 0;
    while i < fields.len()
        invariant
            i <= fields.len(),
            views == fields_view(fields@),
            ranked@ == import_main(old(ranked)@, views, i as nat),
        decreases fields.len() - i,
    {
        let field = &fields[i];
        assert(views[i as int] == field@);
        match (&field.key, &field.value) {
            (Some(tag), Value::Table(entries)) => {
                proof {
                    lemma_table_view(*entries);
                }
                take_entries(ranked, tag.as_str(), entries);
            },
            _ => {},
        }
        i += 1;
    }
}

impl Leaderboard {
    /// Takes one field of the outermost table in.
    fn import_field(&mut self, field: &Field)
        ensures
            final(self)@ == import_field(old(self)@, field@),
    {
        match (&field.key, &field.value) {
            (Some(name), Value::Table(inner)) => {
                proof {
                    lemma_table_view(*inner);
                }
                if same_text(name.as_str(), "CTT2Mode") {
                } else if same_text(name.as_str(), "MainObby") {
                    take_main(&mut self.ranked, inner);
                } else {
                    take_course(&mut self.store, name.as_str(), inner);
                }
            },
            _ => {},
        }
    }

    /// Takes a value tree in, and says whether it was a table. Of a table, every
    /// field but `CTT2Mode` is read: `MainObby` into the ranked lists, any other key
    /// as a course whose fields are submissions. Fields that have not the shape they
    /// need are passed over, one by one; a player that is no string is read as the
    /// empty string, a time that is no number as 9999.000 seconds. A value that is no
    /// table changes nothing. The mode flag is never changed.
    pub fn import_value(&mut self, value: &Value) -> (is_table: bool)
        ensures
            final(self)@ == import_tree(old(self)@, value@),
            is_table == (value@ is Table),
    {
        match value {
            Value::Table(fields) => {
                let ghost views = fields_view(fields@);
                proof {
                    lemma_table_view(*fields);
                }
                let mut i: usize = 0;
                while i < fields.len()
                    invariant
                        i <= fields.len(),
                        views == fields_view(fields@),
                        self@ == import_fields(old(self)@, views, i as nat),
                    decreases fields.len() - i,
                {
                    assert(views[i as int] == fields@[i as int]@);
                    self.import_field(&fields[i]);
                    i += 1;
                }
                true
            },
            _ => false,
        }
    }

    /// Takes a text in, and says whether it was read. A text that is not one table
    /// literal is not read and changes nothing; of one that is, the table is taken in
    /// as `import_value` does.
    pub fn import_text(&mut self, text: &str) -> (read: bool)
        ensures
            final(self)@ == import_document(old(self)@, text@),
            read == document_at(text@).is_some(),
    {
        match parse(text) {
            Some(value) => {
                self.import_value(&value);
                true
            },
            None => false,
        }
    }
}

} // verus!
