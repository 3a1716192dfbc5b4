//! What taking in the tree of a leaderboard restores.

use vstd::prelude::*;
use crate::board::BoardView;
use crate::export::{
    categories_of, category_field, category_of, course_field, course_names, course_of, courses_of,
    entry_fields, export_of, holder_of, main_fields, mode_fields, pair_of, tree_of, CategoryView,
    CourseView,
};
use crate::import::{
    import_course, import_entries, import_fields, import_main, import_tree, pair_player,
    pair_time, positional,
};
use crate::parse::MAX_DEPTH;
use crate::reading::{plain_key, plain_text, plain_value};
use crate::ranked::{
    insert_entry, lemma_first_place, lemma_insert_entry, ranked, Category, EntryView, RankedView,
};
use crate::store::{
    distinct_keys, index_of, lemma_delete, lemma_index_of, lemma_table_of, lemma_upsert, table_of,
    upsert_records, Mode, RecordView, Table,
};
use crate::time::Time;
use crate::value::{FieldView, ValueView};

verus! {

/// The characters of the names that have a meaning of their own in the text.
pub proof fn lemma_names()
    ensures
        "CTT2Mode"@ == seq!['C', 'T', 'T', '2', 'M', 'o', 'd', 'e'],
        "MainObby"@ == seq!['M', 'a', 'i', 'n', 'O', 'b', 'b', 'y'],
        "Bounce"@ == seq!['B', 'o', 'u', 'n', 'c', 'e'],
        "Bounceless"@ == seq!['B', 'o', 'u', 'n', 'c', 'e', 'l', 'e', 's', 's'],
        "NoPlat"@ == seq!['N', 'o', 'P', 'l', 'a', 't'],
{
    reveal_strlit("CTT2Mode");
    reveal_strlit("MainObby");
    reveal_strlit("Bounce");
    reveal_strlit("Bounceless");
    reveal_strlit("NoPlat");
    assert("CTT2Mode"@ =~= seq!['C', 'T', 'T', '2', 'M', 'o', 'd', 'e']);
    assert("MainObby"@ =~= seq!['M', 'a', 'i', 'n', 'O', 'b', 'b', 'y']);
    assert("Bounce"@ =~= seq!['B', 'o', 'u', 'n', 'c', 'e']);
    assert("Bounceless"@ =~= seq!['B', 'o', 'u', 'n', 'c', 'e', 'l', 'e', 's', 's']);
    assert("NoPlat"@ =~= seq!['N', 'o', 'P', 'l', 'a', 't']);
}

/// The names of the modes and categories are read back as what they name.
pub proof fn lemma_names_read_back()
    ensures
        Mode::of_name(Mode::Bounce.name_text()) == Mode::Bounce,
        Mode::of_name(Mode::Bounceless.name_text()) == Mode::Bounceless,
        Category::of_name(Category::Bounce.name_text()) == Some(Category::Bounce),
        Category::of_name(Category::Bounceless.name_text()) == Some(Category::Bounceless),
        Category::of_name(Category::NoPlat.name_text()) == Some(Category::NoPlat),
        "MainObby"@ != "CTT2Mode"@,
{
    lemma_names();
    assert("Bounceless"@.len() != "Bounce"@.len());
    assert("NoPlat"@[0] != "Bounce"@[0]);
    assert("NoPlat"@.len() != "Bounceless"@.len());
    assert("MainObby"@[0] != "CTT2Mode"@[0]);
}

/// The pair written for a player and a time is read back as that player and time.
pub proof fn lemma_pair(holder: (Seq<char>, Time))
    ensures
        pair_of(holder) is Table,
        pair_player(pair_of(holder)->Table_0) == holder.0,
        pair_time(pair_of(holder)->Table_0) == holder.1,
{
    let fields = pair_of(holder)->Table_0;
    reveal_with_fuel(positional, 3);
    assert(positional(fields, 1) =~= seq![ValueView::Text(holder.0)]);
    assert(positional(fields, 2) =~= seq![
        ValueView::Text(holder.0),
        ValueView::Number(holder.1),
    ]);
}

/// The records after a submission that may be missing.
pub open spec fn submit(
    records: Seq<RecordView>,
    course: Seq<char>,
    mode: Mode,
    holder: Option<(Seq<char>, Time)>,
) -> Seq<RecordView> {
    match holder {
        Some(h) => upsert_records(records, RecordView { course, mode, player: h.0, time: h.1 }),
        None => records,
    }
}

/// Taking in the table of a course submits its record of each mode.
pub proof fn lemma_course_taken(records: Seq<RecordView>, course: CourseView)
    ensures
        ({
            let inner = mode_fields(Mode::Bounce, course.bounce) + mode_fields(
                Mode::Bounceless,
                course.bounceless,
            );
            import_course(records, course.course, inner, inner.len()) == submit(
                submit(records, course.course, Mode::Bounce, course.bounce),
                course.course,
                Mode::Bounceless,
                course.bounceless,
            )
        }),
{
    let inner = mode_fields(Mode::Bounce, course.bounce) + mode_fields(
        Mode::Bounceless,
        course.bounceless,
    );
    lemma_names_read_back();
    reveal_with_fuel(import_course, 3);
    if course.bounce is Some {
        lemma_pair(course.bounce->0);
    }
    if course.bounceless is Some {
        lemma_pair(course.bounceless->0);
    }
    match (course.bounce, course.bounceless) {
        (Some(a), Some(b)) => {
            assert(inner =~= seq![
                FieldView { key: Some(Mode::Bounce.name_text()), value: pair_of(a) },
                FieldView { key: Some(Mode::Bounceless.name_text()), value: pair_of(b) },
            ]);
        },
        (Some(a), None) => {
            assert(inner =~= seq![
                FieldView { key: Some(Mode::Bounce.name_text()), value: pair_of(a) },
            ]);
        },
        (None, Some(b)) => {
            assert(inner =~= seq![
                FieldView { key: Some(Mode::Bounceless.name_text()), value: pair_of(b) },
            ]);
        },
        (None, None) => {
            assert(inner =~= Seq::<FieldView>::empty());
        },
    }
}

/// Who holds a record is what the table says of its key.
pub proof fn lemma_holder(records: Seq<RecordView>, course: Seq<char>, mode: Mode)
    requires
        distinct_keys(records),
    ensures
        match holder_of(records, course, mode) {
            Some(h) => table_of(records).contains_key((course, mode)) && table_of(records)[(
                course,
                mode,
            )] == h && exists|i: int|
                0 <= i < records.len() && (#[trigger] records[i]).course == course
                    && records[i].player == h.0,
            None => !table_of(records).contains_key((course, mode)),
        },
{
    lemma_delete(records, course, mode);
    lemma_table_of(records);
    lemma_index_of(records, course, mode);
    let i = index_of(records, course, mode);
    if i < records.len() {
        assert(records[i].key() == (course, mode));
    }
}

/// Whether one of the first `n` records is for the course.
pub open spec fn has_course(records: Seq<RecordView>, n: nat, course: Seq<char>) -> bool {
    exists|i: int| 0 <= i < n && (#[trigger] records[i]).course == course
}

/// What the course names are: each the course of a record, none twice, and every
/// record's course among them.
pub proof fn lemma_course_names(records: Seq<RecordView>, n: nat)
    requires
        n <= records.len(),
    ensures
        forall|a: int, b: int|
            0 <= a < b < course_names(records, n).len() ==> course_names(records, n)[a]
                != course_names(records, n)[b],
        forall|a: int|
            0 <= a < course_names(records, n).len() ==> has_course(
                records,
                n,
                #[trigger] course_names(records, n)[a],
            ),
        forall|i: int|
            0 <= i < n ==> course_names(records, n).contains((#[trigger] records[i]).course),
    decreases n,
{
    if n > 0 {
        let before = course_names(records, (n - 1) as nat);
        let now = course_names(records, n);
        let last = records[n - 1].course;
        lemma_course_names(records, (n - 1) as nat);
        assert forall|a: int| 0 <= a < now.len() implies has_course(
            records,
            n,
            #[trigger] now[a],
        ) by {
            if a < before.len() {
                assert(has_course(records, (n - 1) as nat, before[a]));
                let i = choose|i: int|
                    0 <= i < n - 1 && (#[trigger] records[i]).course == before[a];
                assert(records[i].course == now[a]);
            } else {
                assert(records[n - 1].course == now[a]);
            }
        }
        assert forall|i: int| 0 <= i < n implies now.contains((#[trigger] records[i]).course) by {
            if i < n - 1 {
                let a = choose|a: int| 0 <= a < before.len() && before[a] == records[i].course;
                assert(now[a] == records[i].course);
            } else if before.contains(last) {
            } else {
                assert(now[before.len() as int] == last);
            }
        }
    }
}

/// The table of the records whose course is among the first `k` names.
pub open spec fn table_among(records: Seq<RecordView>, names: Seq<Seq<char>>, k: int) -> Table {
    Map::new(
        |key: (Seq<char>, Mode)|
            table_of(records).contains_key(key) && exists|i: int|
                0 <= i < k && #[trigger] names[i] == key.0,
        |key: (Seq<char>, Mode)| table_of(records)[key],
    )
}

/// Submitting the records of one more course, into records that hold those of the
/// courses before it, gives the records of the courses up to it.
pub proof fn lemma_course_restored(
    records: Seq<RecordView>,
    names: Seq<Seq<char>>,
    k: int,
    built: Seq<RecordView>,
)
    requires
        distinct_keys(records),
        0 <= k < names.len(),
        forall|a: int, b: int| 0 <= a < b < names.len() ==> names[a] != names[b],
        distinct_keys(built),
        table_of(built) == table_among(records, names, k),
    ensures
        ({
            let course = course_of(records, names[k]);
            let after = submit(
                submit(built, names[k], Mode::Bounce, course.bounce),
                names[k],
                Mode::Bounceless,
                course.bounceless,
            );
            distinct_keys(after) && table_of(after) == table_among(records, names, k + 1)
        }),
{
    let name = names[k];
    let course = course_of(records, name);
    let first = submit(built, name, Mode::Bounce, course.bounce);
    let after = submit(first, name, Mode::Bounceless, course.bounceless);
    lemma_holder(records, name, Mode::Bounce);
    lemma_holder(records, name, Mode::Bounceless);
    assert(!table_of(built).contains_key((name, Mode::Bounce)));
    assert(!table_of(built).contains_key((name, Mode::Bounceless)));
    if course.bounce is Some {
        let h = course.bounce->0;
        lemma_upsert(built, RecordView { course: name, mode: Mode::Bounce, player: h.0, time: h.1 });
    }
    assert(!table_of(first).contains_key((name, Mode::Bounceless)));
    if course.bounceless is Some {
        let h = course.bounceless->0;
        lemma_upsert(
            first,
            RecordView { course: name, mode: Mode::Bounceless, player: h.0, time: h.1 },
        );
    }
    let want = table_among(records, names, k + 1);
    assert forall|key: (Seq<char>, Mode)| #[trigger]
        table_of(after).contains_key(key) implies want.contains_key(key) && want[key]
        == table_of(after)[key] by {
        if key.0 == name {
            assert(names[k] == key.0);
            assert(key == (name, key.1));
        } else {
            assert(table_of(built).contains_key(key));
            let i = choose|i: int| 0 <= i < k && #[trigger] names[i] == key.0;
            assert(names[i] == key.0);
        }
    }
    assert forall|key: (Seq<char>, Mode)| #[trigger] want.contains_key(key) implies table_of(
        after,
    ).contains_key(key) by {
        let i = choose|i: int| 0 <= i < k + 1 && #[trigger] names[i] == key.0;
        if i < k {
            assert(table_among(records, names, k).contains_key(key));
        } else {
            assert(key == (name, key.1));
        }
    }
    assert(table_of(after) =~= want);
}

/// Taking in a category's table, entry by entry, into an empty list leaves the first
/// `j` entries as the list: each goes to the end, and none is dropped.
pub proof fn lemma_entries_taken(
    lists: RankedView,
    category: Category,
    entries: Seq<EntryView>,
    j: nat,
)
    requires
        lists.list(category) == Seq::<EntryView>::empty(),
        ranked(entries, category.places()),
        j <= entries.len(),
    ensures
        import_entries(lists, category.name_text(), entry_fields(entries), j) == lists.with_list(
            category,
            entries.take(j as int),
        ),
    decreases j,
{
    if j == 0 {
        assert(entries.take(0) =~= Seq::<EntryView>::empty());
    } else {
        let before = lists.with_list(category, entries.take(j - 1));
        let e = entries[j - 1];
        lemma_entries_taken(lists, category, entries, (j - 1) as nat);
        lemma_pair((e.player, e.time));
        lemma_names_read_back();
        let so_far = entries.take(j - 1);
        assert forall|i: int| 0 <= i < j - 1 implies (#[trigger] so_far[i]).time.millis
            <= e.time.millis by {
            assert(so_far[i] == entries[i]);
        }
        lemma_first_place(so_far, e.time, j - 1);
        assert forall|a: int, b: int| 0 <= a < b < so_far.len() implies so_far[a].time.millis
            <= so_far[b].time.millis by {
            assert(so_far[a] == entries[a]);
            assert(so_far[b] == entries[b]);
        }
        lemma_insert_entry(so_far, e, category.places());
        assert(so_far.insert(j - 1, e) =~= entries.take(j as int));
        assert(EntryView { player: e.player, time: e.time } == e);
        assert(before.list(category) == so_far);
        assert(insert_entry(so_far, e, category.places()) == entries.take(j as int));
    }
}

/// Taking in the first `n` fields depends on those fields alone.
pub proof fn lemma_main_same(lists: RankedView, a: Seq<FieldView>, b: Seq<FieldView>, n: nat)
    requires
        n <= a.len(),
        n <= b.len(),
        forall|i: int| 0 <= i < n ==> a[i] == b[i],
    ensures
        import_main(lists, a, n) == import_main(lists, b, n),
    decreases n,
{
    if n > 0 {
        lemma_main_same(lists, a, b, (n - 1) as nat);
    }
}

/// Taking in two runs of fields, one behind the other, is taking in the first and
/// then the second.
pub proof fn lemma_main_joined(lists: RankedView, a: Seq<FieldView>, b: Seq<FieldView>, j: nat)
    requires
        j <= b.len(),
    ensures
        import_main(lists, a + b, a.len() + j) == import_main(
            import_main(lists, a, a.len()),
            b,
            j,
        ),
    decreases j,
{
    if j == 0 {
        lemma_main_same(lists, a + b, a, a.len());
    } else {
        lemma_main_joined(lists, a, b, (j - 1) as nat);
        assert((a + b)[a.len() + j - 1] == b[j - 1]);
    }
}

/// The field of a category where it holds entries.
pub open spec fn category_fields(lists: RankedView, category: Category) -> Seq<FieldView> {
    category_of(lists, category).map_values(|c: CategoryView| category_field(c))
}

/// Taking in the field of a category, into lists where that category is empty, makes
/// its list the one written.
pub proof fn lemma_category_taken(lists: RankedView, written: RankedView, category: Category)
    requires
        lists.list(category) == Seq::<EntryView>::empty(),
        ranked(written.list(category), category.places()),
    ensures
        import_main(
            lists,
            category_fields(written, category),
            category_fields(written, category).len(),
        ) == lists.with_list(category, written.list(category)),
{
    let entries = written.list(category);
    let fields = category_fields(written, category);
    if entries.len() == 0 {
        assert(entries =~= Seq::<EntryView>::empty());
        assert(fields.len() == 0);
    } else {
        reveal_with_fuel(import_main, 2);
        assert(fields.len() == 1);
        assert(fields[0] == category_field(CategoryView { category, entries }));
        lemma_entries_taken(lists, category, entries, entries.len());
        assert(entries.take(entries.len() as int) =~= entries);
    }
}

/// Taking in the table `MainObby` of ranked lists, into empty lists, restores them.
pub proof fn lemma_main_taken(written: RankedView)
    requires
        written.all_ranked(),
    ensures
        ({
            let inner = categories_of(written).map_values(|c: CategoryView| category_field(c));
            import_main(RankedView::empty(), inner, inner.len()) == written
        }),
{
    let inner = categories_of(written).map_values(|c: CategoryView| category_field(c));
    let a = category_fields(written, Category::Bounce);
    let b = category_fields(written, Category::Bounceless);
    let c = category_fields(written, Category::NoPlat);
    assert(inner =~= a + b + c);
    let start = RankedView::empty();
    lemma_category_taken(start, written, Category::Bounce);
    let first = start.with_list(Category::Bounce, written.bounce);
    lemma_category_taken(first, written, Category::Bounceless);
    let second = first.with_list(Category::Bounceless, written.bounceless);
    lemma_category_taken(second, written, Category::NoPlat);
    lemma_main_joined(start, a, b, b.len());
    lemma_main_joined(start, a + b, c, c.len());
}

/// The field `CTT2Mode` as it is written.
pub open spec fn flag_field(on: bool) -> FieldView {
    FieldView { key: Some("CTT2Mode"@), value: ValueView::Bool(on) }
}

/// No record is for a course called `CTT2Mode` or `MainObby`.
pub open spec fn courses_are_free(records: Seq<RecordView>) -> bool {
    forall|i: int|
        0 <= i < records.len() ==> (#[trigger] records[i]).course != "CTT2Mode"@
            && records[i].course != "MainObby"@
}

/// Taking in the flag and the fields of the first `k` courses, into a leaderboard
/// without records, gives the records of those courses and changes nothing else.
pub proof fn lemma_courses_taken(
    start: BoardView,
    records: Seq<RecordView>,
    fields: Seq<FieldView>,
    k: nat,
)
    requires
        distinct_keys(records),
        courses_are_free(records),
        start.records == Seq::<RecordView>::empty(),
        k <= courses_of(records).len(),
        fields.len() >= 1 + courses_of(records).len(),
        fields[0].key == Some("CTT2Mode"@),
        fields[0].value is Bool,
        forall|i: int|
            0 <= i < courses_of(records).len() ==> #[trigger] fields[1 + i] == course_field(
                courses_of(records)[i],
            ),
    ensures
        ({
            let after = import_fields(start, fields, 1 + k);
            &&& after.ctt2_mode == start.ctt2_mode
            &&& after.ranked == start.ranked
            &&& distinct_keys(after.records)
            &&& table_of(after.records) == table_among(
                records,
                course_names(records, records.len()),
                k as int,
            )
        }),
    decreases k,
{
    let names = course_names(records, records.len());
    reveal_with_fuel(import_fields, 2);
    if k == 0 {
        assert(import_fields(start, fields, 1) == start);
        assert(table_of(start.records) =~= table_among(records, names, 0));
    } else {
        let before = import_fields(start, fields, k);
        lemma_courses_taken(start, records, fields, (k - 1) as nat);
        lemma_course_names(records, records.len());
        let course = courses_of(records)[k - 1];
        let name = names[k - 1];
        assert(course == course_of(records, name));
        assert(fields[1 + (k - 1)] == course_field(course));
        assert(has_course(records, records.len(), name));
        lemma_course_taken(before.records, course);
        lemma_course_restored(records, names, k - 1, before.records);
    }
}

/// Taking in the tree that a leaderboard is written as, into an empty leaderboard,
/// restores the table of its records and, where they were written, its ranked lists.
pub proof fn lemma_tree_taken(board: BoardView)
    requires
        distinct_keys(board.records),
        board.ranked.all_ranked(),
        courses_are_free(board.records),
        board.ctt2_mode || board.ranked.is_empty(),
    ensures
        distinct_keys(import_tree(BoardView::empty(), tree_of(export_of(board))).records),
        table_of(import_tree(BoardView::empty(), tree_of(export_of(board))).records) == table_of(
            board.records,
        ),
        import_tree(BoardView::empty(), tree_of(export_of(board))).ranked == board.ranked,
        import_tree(BoardView::empty(), tree_of(export_of(board))).ctt2_mode == false,
{
    let start = BoardView::empty();
    let table = export_of(board);
    let records = board.records;
    let names = course_names(records, records.len());
    let courses = courses_of(records);
    let course_part = courses.map_values(|c: CourseView| course_field(c));
    let main_part = main_fields(table.main_obby);
    let fields = seq![flag_field(board.ctt2_mode)] + course_part + main_part;
    assert(tree_of(table) == ValueView::Table(fields));
    assert forall|i: int| 0 <= i < courses.len() implies #[trigger] fields[1 + i] == course_field(
        courses[i],
    ) by {
        assert(fields[1 + i] == course_part[i]);
    }
    lemma_courses_taken(start, records, fields, courses.len());
    let taken = import_fields(start, fields, 1 + courses.len());
    lemma_course_names(records, records.len());
    lemma_table_of(records);
    assert(table_of(taken.records) =~= table_of(records)) by {
        assert forall|key: (Seq<char>, Mode)| #[trigger]
            table_of(records).contains_key(key) implies table_among(
            records,
            names,
            names.len() as int,
        ).contains_key(key) by {
            lemma_index_of(records, key.0, key.1);
            let i = index_of(records, key.0, key.1);
            assert(names.contains(records[i].course));
            let a = choose|a: int| 0 <= a < names.len() && names[a] == records[i].course;
            assert(names[a] == key.0);
        }
    }
    if table.main_obby is Some {
        let inner = categories_of(board.ranked).map_values(|c: CategoryView| category_field(c));
        reveal_with_fuel(import_fields, 2);
        lemma_names_read_back();
        lemma_main_taken(board.ranked);
        assert(fields.len() == 2 + courses.len());
        assert(fields[1 + courses.len() as int] == main_part[0]);
        assert(main_part[0].value == ValueView::Table(inner));
    } else {
        assert(main_part =~= Seq::<FieldView>::empty());
        assert(fields.len() == 1 + courses.len());
        assert(board.ranked.bounce =~= Seq::<EntryView>::empty());
        assert(board.ranked.bounceless =~= Seq::<EntryView>::empty());
        assert(board.ranked.noplat =~= Seq::<EntryView>::empty());
    }
}

/// The courses and players of the records are plain strings.
pub open spec fn plain_records(records: Seq<RecordView>) -> bool {
    forall|i: int|
        0 <= i < records.len() ==> plain_text((#[trigger] records[i]).course) && plain_text(
            records[i].player,
        )
}

/// The players of the entries are plain strings.
pub open spec fn plain_entries(entries: Seq<EntryView>) -> bool {
    forall|i: int| 0 <= i < entries.len() ==> plain_text((#[trigger] entries[i]).player)
}

/// Every name on the leaderboard is a plain string.
pub open spec fn plain_board(board: BoardView) -> bool {
    &&& plain_records(board.records)
    &&& plain_entries(board.ranked.bounce)
    &&& plain_entries(board.ranked.bounceless)
    &&& plain_entries(board.ranked.noplat)
}

proof fn lemma_names_are_plain()
    ensures
        plain_text("CTT2Mode"@),
        plain_text("MainObby"@),
        plain_text("Bounce"@),
        plain_text("Bounceless"@),
        plain_text("NoPlat"@),
{
    lemma_names();
}

proof fn lemma_pair_is_plain(holder: (Seq<char>, Time), depth: nat)
    requires
        plain_text(holder.0),
        depth >= 1,
    ensures
        plain_value(pair_of(holder), depth),
{
    let fields = pair_of(holder)->Table_0;
    assert forall|i: int| 0 <= i < fields.len() implies plain_key((#[trigger] fields[i]).key)
        && plain_value(fields[i].value, (depth - 1) as nat) by {
        if i == 0 {
            assert(fields[0].value == ValueView::Text(holder.0));
        } else {
            assert(fields[1].value == ValueView::Number(holder.1));
        }
    }
}

proof fn lemma_course_is_plain(records: Seq<RecordView>, name: Seq<char>, depth: nat)
    requires
        distinct_keys(records),
        plain_records(records),
        has_course(records, records.len(), name),
        depth >= 2,
    ensures
        plain_key(course_field(course_of(records, name)).key),
        plain_value(course_field(course_of(records, name)).value, depth),
{
    let course = course_of(records, name);
    let inner = mode_fields(Mode::Bounce, course.bounce) + mode_fields(
        Mode::Bounceless,
        course.bounceless,
    );
    lemma_names_are_plain();
    lemma_holder(records, name, Mode::Bounce);
    lemma_holder(records, name, Mode::Bounceless);
    if course.bounce is Some {
        lemma_pair_is_plain(course.bounce->0, (depth - 1) as nat);
    }
    if course.bounceless is Some {
        lemma_pair_is_plain(course.bounceless->0, (depth - 1) as nat);
    }
    assert(course_field(course).value == ValueView::Table(inner));
    assert forall|i: int| 0 <= i < inner.len() implies plain_key((#[trigger] inner[i]).key)
        && plain_value(inner[i].value, (depth - 1) as nat) by {
        let a = mode_fields(Mode::Bounce, course.bounce);
        if i < a.len() {
            assert(inner[i] == a[i]);
        } else {
            assert(inner[i] == mode_fields(Mode::Bounceless, course.bounceless)[i - a.len()]);
        }
    }
}

proof fn lemma_category_is_plain(entries: Seq<EntryView>, category: Category, depth: nat)
    requires
        plain_entries(entries),
        depth >= 2,
    ensures
        plain_key(category_field(CategoryView { category, entries }).key),
        plain_value(category_field(CategoryView { category, entries }).value, depth),
{
    let inner = entry_fields(entries);
    lemma_names_are_plain();
    assert forall|i: int| 0 <= i < inner.len() implies plain_key((#[trigger] inner[i]).key)
        && plain_value(inner[i].value, (depth - 1) as nat) by {
        lemma_pair_is_plain((entries[i].player, entries[i].time), (depth - 1) as nat);
    }
}

/// The tree that a leaderboard with plain names is written as is a table of plain
/// values, nested less deep than `MAX_DEPTH`.
pub proof fn lemma_tree_is_plain(board: BoardView)
    requires
        distinct_keys(board.records),
        plain_board(board),
    ensures
        tree_of(export_of(board)) is Table,
        plain_value(tree_of(export_of(board)), MAX_DEPTH as nat),
{
    let table = export_of(board);
    let records = board.records;
    let names = course_names(records, records.len());
    let courses = courses_of(records);
    let course_part = courses.map_values(|c: CourseView| course_field(c));
    let main_part = main_fields(table.main_obby);
    let fields = seq![flag_field(board.ctt2_mode)] + course_part + main_part;
    let depth = (MAX_DEPTH - 1) as nat;
    assert(tree_of(table) == ValueView::Table(fields));
    lemma_names_are_plain();
    lemma_course_names(records, records.len());
    assert forall|i: int| 0 <= i < fields.len() implies plain_key((#[trigger] fields[i]).key)
        && plain_value(fields[i].value, depth) by {
        if i == 0 {
            assert(fields[0] == flag_field(board.ctt2_mode));
        } else if i < 1 + courses.len() {
            assert(fields[i] == course_part[i - 1]);
            assert(courses[i - 1] == course_of(records, names[i - 1]));
            lemma_course_is_plain(records, names[i - 1], depth);
        } else {
            assert(fields[i] == main_part[i - 1 - courses.len()]);
            let listed = categories_of(board.ranked);
            let inner = listed.map_values(|c: CategoryView| category_field(c));
            assert(fields[i].value == ValueView::Table(inner));
            assert forall|j: int| 0 <= j < inner.len() implies plain_key(
                (#[trigger] inner[j]).key,
            ) && plain_value(inner[j].value, (depth - 1) as nat) by {
                let c = listed[j];
                assert(c.entries == board.ranked.list(c.category)) by {
                    let a = category_of(board.ranked, Category::Bounce);
                    let b = category_of(board.ranked, Category::Bounceless);
                    let d = category_of(board.ranked, Category::NoPlat);
                    if j < a.len() {
                        assert(c == a[j]);
                    } else if j < a.len() + b.len() {
                        assert(c == b[j - a.len()]);
                    } else {
                        assert(c == d[j - a.len() - b.len()]);
                    }
                }
                lemma_category_is_plain(c.entries, c.category, (depth - 1) as nat);
            }
        }
    }
}

} // verus!
