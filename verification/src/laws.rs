//! What holds of the library as a whole: of the store and the ranked lists after any
//! run of submissions, of a table with a malformed field, and of a leaderboard that
//! is written as text and read back.

use vstd::prelude::*;
use crate::board::BoardView;
use crate::export::{board_text, export_of, tree_of};
use crate::import::{import_document, import_field, import_fields, import_tree};
use crate::parse::document_at;
use crate::ranked::{lemma_insert_keeps_ranked, Category, EntryView, RankedView};
use crate::reading::lemma_written_is_read_back;
use crate::restoring::{courses_are_free, lemma_tree_is_plain, lemma_tree_taken, plain_board};
use crate::store::{distinct_keys, table_of, upsert_table, Mode, RecordView, Table};
use crate::value::{FieldView, ValueView};

verus! {

/// The table after the submissions `calls`, made one after the other on `start`.
pub open spec fn table_after(start: Table, calls: Seq<RecordView>) -> Table
    decreases calls.len(),
{
    if calls.len() == 0 {
        start
    } else {
        upsert_table(table_after(start, calls.drop_last()), calls.last())
    }
}

/// The submission at `i` is the best for its course and mode: none for that key has a
/// lesser time, and none before it has an equal one.
pub open spec fn is_best(calls: Seq<RecordView>, i: int) -> bool {
    &&& 0 <= i < calls.len()
    &&& forall|j: int|
        0 <= j < calls.len() && (#[trigger] calls[j]).key() == calls[i].key()
            ==> calls[i].time.millis <= calls[j].time.millis
    &&& forall|j: int|
        0 <= j < i && (#[trigger] calls[j]).key() == calls[i].key() ==> calls[i].time.millis
            < calls[j].time.millis
}

/// The place of the best submission for a key, or -1 where none has the key.
spec fn best_index(calls: Seq<RecordView>, key: (Seq<char>, Mode)) -> int
    decreases calls.len(),
{
    if calls.len() == 0 {
        -1
    } else {
        let before = best_index(calls.drop_last(), key);
        if calls.last().key() == key && (before < 0 || calls.last().time.millis
            < calls[before].time.millis) {
            calls.len() - 1
        } else {
            before
        }
    }
}

proof fn lemma_best_index(calls: Seq<RecordView>, key: (Seq<char>, Mode))
    ensures
        -1 <= best_index(calls, key) < calls.len(),
        best_index(calls, key) < 0 ==> forall|j: int|
            0 <= j < calls.len() ==> (#[trigger] calls[j]).key() != key,
        best_index(calls, key) >= 0 ==> calls[best_index(calls, key)].key() == key && is_best(
            calls,
            best_index(calls, key),
        ),
        table_after(Map::empty(), calls).contains_key(key) <==> best_index(calls, key) >= 0,
        best_index(calls, key) >= 0 ==> table_after(Map::empty(), calls)[key]
            == calls[best_index(calls, key)].holder(),
    decreases calls.len(),
{
    if calls.len() > 0 {
        let p = calls.drop_last();
        lemma_best_index(p, key);
        let b = best_index(p, key);
        let now = best_index(calls, key);
        assert forall|j: int| 0 <= j < p.len() implies p[j] == calls[j] by {}
        if now < 0 {
            assert forall|j: int| 0 <= j < calls.len() implies (#[trigger] calls[j]).key()
                != key by {
                if j < p.len() {
                    assert(p[j].key() != key);
                }
            }
        } else {
            assert forall|j: int|
                0 <= j < calls.len() && (#[trigger] calls[j]).key()
                    == calls[now].key() implies calls[now].time.millis
                <= calls[j].time.millis by {
                if j < p.len() {
                    assert(p[j].key() == key);
                }
            }
            assert forall|j: int|
                0 <= j < now && (#[trigger] calls[j]).key() == calls[now].key() implies calls[now].time.millis
                < calls[j].time.millis by {
                assert(p[j].key() == key);
            }
        }
    }
}

/// After any run of submissions on an empty store, the table holds exactly the keys
/// that were submitted, and for each of them the player and time of the best
/// submission: the least time, and among equal times the first.
pub proof fn lemma_best_time_is_kept(calls: Seq<RecordView>)
    ensures
        forall|key: (Seq<char>, Mode)| #[trigger]
            table_after(Map::empty(), calls).contains_key(key) <==> exists|j: int|
                0 <= j < calls.len() && (#[trigger] calls[j]).key() == key,
        forall|i: int| #[trigger]
            is_best(calls, i) ==> table_after(Map::empty(), calls).contains_key(calls[i].key())
                && table_after(Map::empty(), calls)[calls[i].key()] == calls[i].holder(),
{
    let table = table_after(Map::empty(), calls);
    assert forall|key: (Seq<char>, Mode)| #[trigger] table.contains_key(key) <==> exists|j: int|
        0 <= j < calls.len() && (#[trigger] calls[j]).key() == key by {
        lemma_best_index(calls, key);
        if table.contains_key(key) {
            assert(calls[best_index(calls, key)].key() == key);
        }
    }
    assert forall|i: int| #[trigger] is_best(calls, i) implies table.contains_key(calls[i].key())
        && table[calls[i].key()] == calls[i].holder() by {
        let key = calls[i].key();
        lemma_best_index(calls, key);
        let b = best_index(calls, key);
        assert(calls[i].key() == key);
        assert(b >= 0);
        assert(calls[b].key() == key);
        if b < i {
            assert(calls[i].time.millis < calls[b].time.millis);
        } else if i < b {
            assert(calls[b].time.millis < calls[i].time.millis);
        }
    }
}

/// The ranked lists after the insertions `calls`, each a tag and an entry, made one
/// after the other on `start`.
pub open spec fn lists_after(start: RankedView, calls: Seq<(Seq<char>, EntryView)>) -> RankedView
    decreases calls.len(),
{
    if calls.len() == 0 {
        start
    } else {
        lists_after(start, calls.drop_last()).insert_named(calls.last().0, calls.last().1)
    }
}

/// After any run of insertions, under whatever tags, every category's list is
/// ascending by time and holds no more entries than its capacity: 12, 11 and 10.
pub proof fn lemma_lists_stay_ranked(start: RankedView, calls: Seq<(Seq<char>, EntryView)>)
    requires
        start.all_ranked(),
    ensures
        lists_after(start, calls).all_ranked(),
        lists_after(start, calls).bounce.len() <= 12,
        lists_after(start, calls).bounceless.len() <= 11,
        lists_after(start, calls).noplat.len() <= 10,
    decreases calls.len(),
{
    if calls.len() > 0 {
        let before = lists_after(start, calls.drop_last());
        lemma_lists_stay_ranked(start, calls.drop_last());
        match Category::of_name(calls.last().0) {
            Some(category) => {
                lemma_insert_keeps_ranked(
                    before.list(category),
                    calls.last().1,
                    category.places(),
                );
            },
            None => {},
        }
    }
}

/// A field of the outermost table that has not the shape of an entry: it has no key,
/// or its value is no table.
pub open spec fn malformed(field: FieldView) -> bool {
    field.key is None || !(field.value is Table)
}

/// A malformed field is passed over and the fields around it are taken in: a table
/// with such a field at any place leaves the leaderboard as the table without it does.
pub proof fn lemma_malformed_field_is_skipped(
    board: BoardView,
    fields: Seq<FieldView>,
    at: int,
    bad: FieldView,
)
    requires
        0 <= at <= fields.len(),
        malformed(bad),
    ensures
        import_field(board, bad) == board,
        import_tree(board, ValueView::Table(fields.insert(at, bad))) == import_tree(
            board,
            ValueView::Table(fields),
        ),
{
    lemma_fields_without(board, fields, at, bad, fields.len());
    assert(fields.insert(at, bad).len() == fields.len() + 1);
}

proof fn lemma_fields_without(
    board: BoardView,
    fields: Seq<FieldView>,
    at: int,
    bad: FieldView,
    n: nat,
)
    requires
        0 <= at <= fields.len(),
        malformed(bad),
        n <= fields.len(),
    ensures
        n < at ==> import_fields(board, fields.insert(at, bad), n) == import_fields(
            board,
            fields,
            n,
        ),
        n >= at ==> import_fields(board, fields.insert(at, bad), n + 1) == import_fields(
            board,
            fields,
            n,
        ),
    decreases n,
{
    let with = fields.insert(at, bad);
    reveal_with_fuel(import_fields, 2);
    if n > 0 {
        lemma_fields_without(board, fields, at, bad, (n - 1) as nat);
        if n < at {
            assert(with[n - 1] == fields[n - 1]);
        } else if n == at {
            assert(with[n as int] == bad);
            assert(with[n - 1] == fields[n - 1]);
        } else {
            assert(with[n as int] == fields[n - 1]);
        }
    } else {
        if at == 0 {
            assert(with[0] == bad);
        }
    }
}

/// A leaderboard whose text holds all of it: the names of its courses and players
/// are without double quotes, backslashes and line breaks, no course is called
/// `CTT2Mode` or `MainObby`, and the ranked lists are empty unless the mode flag is on.
pub open spec fn restorable(board: BoardView) -> bool {
    &&& plain_board(board)
    &&& courses_are_free(board.records)
    &&& board.ctt2_mode || board.ranked.is_empty()
}

/// Writing a leaderboard as text and taking that text into an empty leaderboard
/// gives back the same table of records and the same ranked lists. The mode flag is
/// not restored.
pub proof fn lemma_written_board_is_restored(board: BoardView)
    requires
        distinct_keys(board.records),
        board.ranked.all_ranked(),
        restorable(board),
    ensures
        document_at(board_text(board)) == Some(tree_of(export_of(board))),
        table_of(import_document(BoardView::empty(), board_text(board)).records) == table_of(
            board.records,
        ),
        import_document(BoardView::empty(), board_text(board)).ranked == board.ranked,
        !import_document(BoardView::empty(), board_text(board)).ctt2_mode,
{
    lemma_tree_is_plain(board);
    lemma_written_is_read_back(tree_of(export_of(board)));
    lemma_tree_taken(board);
}

} // verus!
