//! The projection of a leaderboard that is written out: the records grouped by
//! course, and the ranked lists where they are part of it.

use vstd::prelude::*;
use crate::board::{BoardView, Leaderboard};
use crate::ranked::{entries_of, Category, EntryView, RankedEntry, RankedView};
use crate::render::{document_text, render};
use crate::store::{index_of, lemma_first_index, views_of, Mode, Record, RecordView};
use crate::text::same_text;
use crate::time::Time;
use crate::value::{fields_view, lemma_table_view, Field, FieldView, Value, ValueView};

verus! {

/// Who holds a record, and with what time.
#[derive(Clone, Debug)]
pub struct Holder {
    pub player: String,
    pub time: Time,
}

impl View for Holder {
    type V = (Seq<char>, Time);

    open spec fn view(&self) -> (Seq<char>, Time) {
        (self.player@, self.time)
    }
}

/// The records of one course: one for each mode that has one.
#[derive(Clone, Debug)]
pub struct CourseTimes {
    pub course: String,
    pub bounce: Option<Holder>,
    pub bounceless: Option<Holder>,
}

/// The list of one ranked category.
#[derive(Clone, Debug)]
pub struct CategoryTimes {
    pub category: Category,
    pub entries: Vec<RankedEntry>,
}

/// What is written out of a leaderboard.
#[derive(Clone, Debug)]
pub struct ExportTable {
    pub ctt2_mode: bool,
    /// Each course once, in the order in which the courses were first submitted.
    pub courses: Vec<CourseTimes>,
    /// The ranked categories that hold entries, in the order `Bounce`, `Bounceless`,
    /// `NoPlat`; none where the mode flag is off or all three lists are empty.
    pub main_obby: Option<Vec<CategoryTimes>>,
}

/// The records of one course as a plain value.
pub struct CourseView {
    pub course: Seq<char>,
    pub bounce: Option<(Seq<char>, Time)>,
    pub bounceless: Option<(Seq<char>, Time)>,
}

/// The list of one ranked category as a plain value.
pub struct CategoryView {
    pub category: Category,
    pub entries: Seq<EntryView>,
}

/// A projection as a plain value.
pub struct ExportView {
    pub ctt2_mode: bool,
    pub courses: Seq<CourseView>,
    pub main_obby: Option<Seq<CategoryView>>,
}

/// A holder, where there is one, as a plain value.
pub open spec fn holder_view(holder: Option<Holder>) -> Option<(Seq<char>, Time)> {
    match holder {
        Some(h) => Some(h@),
        None => None,
    }
}

impl View for CourseTimes {
    type V = CourseView;

    open spec fn view(&self) -> CourseView {
        CourseView {
            course: self.course@,
            bounce: holder_view(self.bounce),
            bounceless: holder_view(self.bounceless),
        }
    }
}

impl View for CategoryTimes {
    type V = CategoryView;

    open spec fn view(&self) -> CategoryView {
        CategoryView { category: self.category, entries: entries_of(self.entries@) }
    }
}

/// The courses of a projection as plain values.
pub open spec fn courses_view(courses: Seq<CourseTimes>) -> Seq<CourseView> {
    courses.map_values(|c: CourseTimes| c@)
}

/// The categories of a projection as plain values.
pub open spec fn categories_view(categories: Seq<CategoryTimes>) -> Seq<CategoryView> {
    categories.map_values(|c: CategoryTimes| c@)
}

impl View for ExportTable {
    type V = ExportView;

    open spec fn view(&self) -> ExportView {
        ExportView {
            ctt2_mode: self.ctt2_mode,
            courses: courses_view(self.courses@),
            main_obby: match self.main_obby {
                Some(categories) => Some(categories_view(categories@)),
                None => None,
            },
        }
    }
}

/// Who holds the record of a course in a mode, if there is one.
pub open spec fn holder_of(records: Seq<RecordView>, course: Seq<char>, mode: Mode) -> Option<
    (Seq<char>, Time),
> {
    let i = index_of(records, course, mode);
    if i < records.len() {
        Some(records[i].holder())
    } else {
        None
    }
}

/// The names of the courses among the first `n` records, each once, in the order in
/// which they first occur.
pub open spec fn course_names(records: Seq<RecordView>, n: nat) -> Seq<Seq<char>>
    decreases n,
{
    if n == 0 || n > records.len() {
        Seq::empty()
    } else {
        let names = course_names(records, (n - 1) as nat);
        if names.contains(records[n - 1].course) {
            names
        } else {
            names.push(records[n - 1].course)
        }
    }
}

/// The records of one course.
pub open spec fn course_of(records: Seq<RecordView>, course: Seq<char>) -> CourseView {
    CourseView {
        course,
        bounce: holder_of(records, course, Mode::Bounce),
        bounceless: holder_of(records, course, Mode::Bounceless),
    }
}

/// The records grouped by course.
pub open spec fn courses_of(records: Seq<RecordView>) -> Seq<CourseView> {
    course_names(records, records.len()).map_values(|c: Seq<char>| course_of(records, c))
}

/// The list of a category where it holds entries.
pub open spec fn category_of(ranked: RankedView, category: Category) -> Seq<CategoryView> {
    if ranked.list(category).len() > 0 {
        seq![CategoryView { category, entries: ranked.list(category) }]
    } else {
        Seq::empty()
    }
}

/// The ranked categories that hold entries.
pub open spec fn categories_of(ranked: RankedView) -> Seq<CategoryView> {
    category_of(ranked, Category::Bounce) + category_of(ranked, Category::Bounceless)
        + category_of(ranked, Category::NoPlat)
}

/// What is written out of a leaderboard: the mode flag, every course with its
/// records, and the ranked lists where the flag is on and some list holds an entry.
pub open spec fn export_of(board: BoardView) -> ExportView {
    ExportView {
        ctt2_mode: board.ctt2_mode,
        courses: courses_of(board.records),
        main_obby: if board.ctt2_mode && !board.ranked.is_empty() {
            Some(categories_of(board.ranked))
        } else {
            None
        },
    }
}

fn holder_in(records: &Vec<Record>, course: &str, mode: Mode) -> (h: Option<Holder>)
    ensures
        holder_view(h) == holder_of(views_of(records@), course@, mode),
{
    let ghost views = views_of(records@);
    let mut i: usize = 0;
    while i < records.len()
        invariant
            i <= records.len(),
            views == views_of(records@),
            forall|j: int| 0 <= j < i ==> (#[trigger] views[j]).key() != (course@, mode),
        decreases records.len() - i,
    {
        if records[i].mode == mode && same_text(records[i].course.as_str(), course) {
            proof {
                lemma_first_index(views, course@, mode, i as int);
            }
            return Some(Holder { player: records[i].player.clone(), time: records[i].time });
        }
        i += 1;
    }
    proof {
        lemma_first_index(views, course@, mode, i as int);
    }
    None
}

fn copy_entries(list: &Vec<RankedEntry>) -> (copy: Vec<RankedEntry>)
    ensures
        entries_of(copy@) == entries_of(list@),
{
    let mut copy: Vec<RankedEntry> = Vec::new();
    let mut i: usize = 0;
    while i < list.len()
        invariant
            i <= list.len(),
            entries_of(copy@) == entries_of(list@).take(i as int),
        decreases list.len() - i,
    {
        let entry = RankedEntry { player: list[i].player.clone(), time: list[i].time };
        assert(entry@ == entries_of(list@)[i as int]);
        let ghost before = entries_of(copy@);
        copy.push(entry);
        i += 1;
        assert(entries_of(copy@) =~= before.push(entry@));
        assert(entries_of(copy@) =~= entries_of(list@).take(i as int));
    }
    assert(entries_of(list@).take(list.len() as int) =~= entries_of(list@));
    copy
}

impl Leaderboard {
    /// The projection of the leaderboard that is written out.
    pub fn export_table(&self) -> (table: ExportTable)
        ensures
            table@ == export_of(self@),
    {
        let records = self.store.all();
        let ghost views = views_of(records@);
        let mut courses: Vec<CourseTimes> = Vec::new();
        let mut i: usize = 0;
        while i < records.len()
            invariant
                i <= records.len(),
                views == views_of(records@),
                courses_view(courses@) == course_names(views, i as nat).map_values(
                    |c: Seq<char>| course_of(views, c),
                ),
            decreases records.len() - i,
        {
            let course = records[i].course.as_str();
            let ghost names = course_names(views, i as nat);
            let ghost shown = courses_view(courses@);
            assert(shown.len() == courses@.len());
            assert(views[i as int] == records@[i as int]@);
            let mut known = false;
            let mut j: usize = 0;
            while j < courses.len()
                invariant
                    j <= courses.len(),
                    courses@.len() == names.len(),
                    course@ == views[i as int].course,
                    courses_view(courses@) == names.map_values(|c: Seq<char>| course_of(views, c)),
                    known == (exists|k: int| 0 <= k < j && #[trigger] names[k] == course@),
                decreases courses.len() - j,
            {
                assert(courses_view(courses@)[j as int].course == names[j as int]);
                if same_text(courses[j].course.as_str(), course) {
                    known = true;
                }
                j += 1;
            }
            assert(known == names.contains(course@));
            if !known {
                let entry = CourseTimes {
                    course: records[i].course.clone(),
                    bounce: holder_in(records, course, Mode::Bounce),
                    bounceless: holder_in(records, course, Mode::Bounceless),
                };
                assert(entry@ == course_of(views, course@));
                courses.push(entry);
                assert(courses_view(courses@) =~= shown.push(entry@));
            }
            i += 1;
            assert(courses_view(courses@) =~= course_names(views, i as nat).map_values(
                |c: Seq<char>| course_of(views, c),
            ));
        }
        let main_obby = if self.ctt2_mode && !self.ranked.is_empty() {
            let lists = self.ranked.categories();
            let mut categories: Vec<CategoryTimes> = Vec::new();
            if lists.0.len() > 0 {
                categories.push(
                    CategoryTimes { category: Category::Bounce, entries: copy_entries(lists.0) },
                );
            }
            if lists.1.len() > 0 {
                categories.push(
                    CategoryTimes { category: Category::Bounceless, entries: copy_entries(lists.1) },
                );
            }
            if lists.2.len() > 0 {
                categories.push(
                    CategoryTimes { category: Category::NoPlat, entries: copy_entries(lists.2) },
                );
            }
            assert(categories_view(categories@) =~= categories_of(self.ranked@));
            Some(categories)
        } else {
            None
        };
        ExportTable { ctt2_mode: self.ctt2_mode, courses, main_obby }
    }
}

/// A player and a time as the table `{ "player", time }`.
pub open spec fn pair_of(holder: (Seq<char>, Time)) -> ValueView {
    ValueView::Table(
        seq![
            FieldView { key: None, value: ValueView::Text(holder.0) },
            FieldView { key: None, value: ValueView::Number(holder.1) },
        ],
    )
}

/// The field of one mode of a course, where the mode has a record.
pub open spec fn mode_fields(mode: Mode, holder: Option<(Seq<char>, Time)>) -> Seq<FieldView> {
    match holder {
        Some(h) => seq![FieldView { key: Some(mode.name_text()), value: pair_of(h) }],
        None => Seq::empty(),
    }
}

/// The field of one course: under its name, a table with a field for each mode.
pub open spec fn course_field(course: CourseView) -> FieldView {
    FieldView {
        key: Some(course.course),
        value: ValueView::Table(
            mode_fields(Mode::Bounce, course.bounce) + mode_fields(
                Mode::Bounceless,
                course.bounceless,
            ),
        ),
    }
}

/// The entries of a ranked list as fields without keys.
pub open spec fn entry_fields(entries: Seq<EntryView>) -> Seq<FieldView> {
    entries.map_values(|e: EntryView| FieldView { key: None, value: pair_of((e.player, e.time)) })
}

/// The field of one ranked category: under its tag, the table of its entries.
pub open spec fn category_field(category: CategoryView) -> FieldView {
    FieldView {
        key: Some(category.category.name_text()),
        value: ValueView::Table(entry_fields(category.entries)),
    }
}

/// The field `MainObby` with the ranked categories, where they are written out.
pub open spec fn main_fields(main_obby: Option<Seq<CategoryView>>) -> Seq<FieldView> {
    match main_obby {
        Some(categories) => seq![
            FieldView {
                key: Some("MainObby"@),
                value: ValueView::Table(
                    categories.map_values(|c: CategoryView| category_field(c)),
                ),
            },
        ],
        None => Seq::empty(),
    }
}

/// The table that stands for a projection: the field `CTT2Mode`, a field for each
/// course, and the field `MainObby` where the ranked lists are part of it.
pub open spec fn tree_of(table: ExportView) -> ValueView {
    ValueView::Table(
        seq![FieldView { key: Some("CTT2Mode"@), value: ValueView::Bool(table.ctt2_mode) }]
            + table.courses.map_values(|c: CourseView| course_field(c)) + main_fields(
            table.main_obby,
        ),
    )
}

/// The text that a leaderboard is written as.
pub open spec fn board_text(board: BoardView) -> Seq<char> {
    document_text(tree_of(export_of(board)))
}

fn pair_value(player: &String, time: Time) -> (v: Value)
    ensures
        v@ == pair_of((player@, time)),
{
    let mut fields: Vec<Field> = Vec::new();
    fields.push(Field { key: None, value: Value::Text(player.clone()) });
    fields.push(Field { key: None, value: Value::Number(time) });
    proof {
        lemma_table_view(fields);
        assert(fields_view(fields@) =~= pair_of((player@, time))->Table_0);
    }
    Value::Table(fields)
}

fn push_mode(fields: &mut Vec<Field>, mode: Mode, holder: &Option<Holder>)
    ensures
        fields_view(final(fields)@) == fields_view(old(fields)@) + mode_fields(
            mode,
            holder_view(*holder),
        ),
{
    match holder {
        Some(h) => {
            let field = Field {
                key: Some(mode.name().to_owned()),
                value: pair_value(&h.player, h.time),
            };
            fields.push(field);
            assert(fields_view(fields@) =~= fields_view(old(fields)@) + mode_fields(
                mode,
                holder_view(*holder),
            ));
        },
        None => {
            assert(fields_view(fields@) =~= fields_view(old(fields)@) + mode_fields(
                mode,
                holder_view(*holder),
            ));
        },
    }
}

fn course_value(course: &CourseTimes) -> (f: Field)
    ensures
        f@ == course_field(course@),
{
    let mut fields: Vec<Field> = Vec::new();
    assert(fields_view(fields@) =~= Seq::<FieldView>::empty());
    push_mode(&mut fields, Mode::Bounce, &course.bounce);
    push_mode(&mut fields, Mode::Bounceless, &course.bounceless);
    proof {
        lemma_table_view(fields);
        assert(fields_view(fields@) =~= mode_fields(Mode::Bounce, course@.bounce) + mode_fields(
            Mode::Bounceless,
            course@.bounceless,
        ));
    }
    Field { key: Some(course.course.clone()), value: Value::Table(fields) }
}

fn category_value(category: &CategoryTimes) -> (f: Field)
    ensures
        f@ == category_field(category@),
{
    let mut fields: Vec<Field> = Vec::new();
    let mut i: usize = 0;
    while i < category.entries.len()
        invariant
            i <= category.entries.len(),
            fields_view(fields@) == entry_fields(category@.entries).take(i as int),
        decreases category.entries.len() - i,
    {
        let entry = &category.entries[i];
        let field = Field { key: None, value: pair_value(&entry.player, entry.time) };
        assert(field@ == entry_fields(category@.entries)[i as int]);
        let ghost before = fields_view(fields@);
        fields.push(field);
        i += 1;
        assert(fields_view(fields@) =~= before.push(field@));
        assert(fields_view(fields@) =~= entry_fields(category@.entries).take(i as int));
    }
    proof {
        lemma_table_view(fields);
        assert(entry_fields(category@.entries).take(category.entries.len() as int)
            =~= entry_fields(category@.entries));
    }
    Field { key: Some(category.category.name().to_owned()), value: Value::Table(fields) }
}

impl ExportTable {
    /// The projection as a value tree.
    pub fn to_value(&self) -> (v: Value)
        ensures
            v@ == tree_of(self@),
    {
        let mut fields: Vec<Field> = Vec::new();
        let flag = Field { key: Some("CTT2Mode".to_owned()), value: Value::Bool(self.ctt2_mode) };
        fields.push(flag);
        let ghost head = seq![flag@];
        let ghost wanted = self@.courses.map_values(|c: CourseView| course_field(c));
        assert(fields_view(fields@) =~= head + wanted.take(0));
        let mut i: usize = 0;
        while i < self.courses.len()
            invariant
                i <= self.courses.len(),
                wanted == self@.courses.map_values(|c: CourseView| course_field(c)),
                fields_view(fields@) == head + wanted.take(i as int),
            decreases self.courses.len() - i,
        {
            let field = course_value(&self.courses[i]);
            assert(field@ == wanted[i as int]);
            let ghost before = fields_view(fields@);
            fields.push(field);
            i += 1;
            assert(fields_view(fields@) =~= before.push(field@));
            assert(fields_view(fields@) =~= head + wanted.take(i as int));
        }
        assert(wanted.take(self.courses.len() as int) =~= wanted);
        match &self.main_obby {
            Some(categories) => {
                let ghost listed = categories_view(categories@).map_values(
                    |c: CategoryView| category_field(c),
                );
                let mut inner: Vec<Field> = Vec::new();
                let mut j: usize = 0;
                while j < categories.len()
                    invariant
                        j <= categories.len(),
                        listed == categories_view(categories@).map_values(
                            |c: CategoryView| category_field(c),
                        ),
                        fields_view(inner@) == listed.take(j as int),
                    decreases categories.len() - j,
                {
                    let field = category_value(&categories[j]);
                    assert(field@ == listed[j as int]);
                    let ghost before = fields_view(inner@);
                    inner.push(field);
                    j += 1;
                    assert(fields_view(inner@) =~= before.push(field@));
                    assert(fields_view(inner@) =~= listed.take(j as int));
                }
                proof {
                    lemma_table_view(inner);
                    assert(listed.take(categories.len() as int) =~= listed);
                }
                let main = Field { key: Some("MainObby".to_owned()), value: Value::Table(inner) };
                let ghost before = fields_view(fields@);
                fields.push(main);
                assert(fields_view(fields@) =~= before.push(main@));
                assert(fields_view(fields@) =~= head + wanted + main_fields(self@.main_obby));
            },
            None => {
                assert(fields_view(fields@) =~= head + wanted + main_fields(self@.main_obby));
            },
        }
        proof {
            lemma_table_view(fields);
        }
        Value::Table(fields)
    }
}

impl Leaderboard {
    /// The leaderboard as a value tree.
    pub fn to_value(&self) -> (v: Value)
        ensures
            v@ == tree_of(export_of(self@)),
    {
        self.export_table().to_value()
    }

    /// The leaderboard as text: a table literal with the field `CTT2Mode`, a field for
    /// each course holding its records by mode, and, where the mode flag is on and a
    /// ranked list holds an entry, the field `MainObby`.
    pub fn to_text(&self) -> (text: String)
        ensures
            text@ == board_text(self@),
    {
        render(&self.to_value())
    }
}

} // verus!
