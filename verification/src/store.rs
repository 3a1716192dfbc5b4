//! The record store: at most one record for each course and mode, holding the best
//! time submitted for it.

use vstd::prelude::*;
use crate::text::same_text;
use crate::time::Time;

verus! {

/// The two leaderboard variants of a course.
#[derive(Clone, Copy, Debug, PartialEq, Eq, Structural)]
pub enum Mode {
    Bounce,
    Bounceless,
}

impl Mode {
    /// The mode that a name stands for: `Bounce` for "Bounce", `Bounceless` for any other.
    pub open spec fn of_name(name: Seq<char>) -> Mode {
        if name == "Bounce"@ {
            Mode::Bounce
        } else {
            Mode::Bounceless
        }
    }

    /// The mode's name.
    pub open spec fn name_text(self) -> Seq<char> {
        match self {
            Mode::Bounce => "Bounce"@,
            Mode::Bounceless => "Bounceless"@,
        }
    }

    /// Reads a mode name. Every name but "Bounce" is taken as `Bounceless`.
    pub fn from_name(name: &str) -> (m: Mode)
        ensures
            m == Mode::of_name(name@),
    {
        if same_text(name, "Bounce") {
            Mode::Bounce
        } else {
            Mode::Bounceless
        }
    }

    /// The mode's name as the text format writes it.
    pub fn name(self) -> (s: &'static str)
        ensures
            s@ == self.name_text(),
    {
        match self {
            Mode::Bounce => "Bounce",
            Mode::Bounceless => "Bounceless",
        }
    }
}

/// The best time of one course in one mode, and who holds it.
#[derive(Clone, Debug)]
pub struct Record {
    pub course: String,
    pub mode: Mode,
    pub player: String,
    pub time: Time,
}

/// A record as a plain value.
pub struct RecordView {
    pub course: Seq<char>,
    pub mode: Mode,
    pub player: Seq<char>,
    pub time: Time,
}

impl View for Record {
    type V = RecordView;

    open spec fn view(&self) -> RecordView {
        RecordView { course: self.course@, mode: self.mode, player: self.player@, time: self.time }
    }
}

impl RecordView {
    /// What identifies the record: its course and mode.
    pub open spec fn key(self) -> (Seq<char>, Mode) {
        (self.course, self.mode)
    }

    /// What the record holds for its key: the player and the time.
    pub open spec fn holder(self) -> (Seq<char>, Time) {
        (self.player, self.time)
    }
}

/// The table from (course, mode) to (player, time).
pub type Table = Map<(Seq<char>, Mode), (Seq<char>, Time)>;

/// Records as plain values.
pub open spec fn views_of(records: Seq<Record>) -> Seq<RecordView> {
    records.map_values(|r: Record| r@)
}

/// No two records of `s` are for the same course and mode.
pub open spec fn distinct_keys(s: Seq<RecordView>) -> bool {
    forall|i: int, j: int| 0 <= i < j < s.len() ==> s[i].key() != s[j].key()
}

/// The place of the first record of `s` for the given course and mode, or `s.len()`
/// where there is none.
pub open spec fn index_of(s: Seq<RecordView>, course: Seq<char>, mode: Mode) -> int
    decreases s.len(),
{
    if s.len() == 0 {
        0
    } else {
        let before = index_of(s.drop_last(), course, mode);
        if before < s.len() - 1 {
            before
        } else if s.last().key() == (course, mode) {
            s.len() - 1
        } else {
            s.len() as int
        }
    }
}

/// The table that a sequence of records stands for. Where two records share a key the
/// later one counts; in a store there are no such two.
pub open spec fn table_of(s: Seq<RecordView>) -> Table
    decreases s.len(),
{
    if s.len() == 0 {
        Map::empty()
    } else {
        table_of(s.drop_last()).insert(s.last().key(), s.last().holder())
    }
}

/// The records after a submission: a new key is added at the end, a strictly better
/// time takes the place of the record it beats, anything else changes nothing.
pub open spec fn upsert_records(s: Seq<RecordView>, r: RecordView) -> Seq<RecordView> {
    let i = index_of(s, r.course, r.mode);
    if i == s.len() {
        s.push(r)
    } else if r.time.millis < s[i].time.millis {
        s.update(i, r)
    } else {
        s
    }
}

/// The table after a submission: the entry is written where the key is new or the time
/// is strictly less than the one held.
pub open spec fn upsert_table(t: Table, r: RecordView) -> Table {
    if t.contains_key(r.key()) && t[r.key()].1.millis <= r.time.millis {
        t
    } else {
        t.insert(r.key(), r.holder())
    }
}

/// The records without the one for the given course and mode.
pub open spec fn delete_records(s: Seq<RecordView>, course: Seq<char>, mode: Mode) -> Seq<
    RecordView,
> {
    let i = index_of(s, course, mode);
    if i == s.len() {
        s
    } else {
        s.remove(i)
    }
}

/// What `index_of` is: a place in the records or their end, with no record for the
/// key before it and one for the key at it.
pub proof fn lemma_index_of(s: Seq<RecordView>, course: Seq<char>, mode: Mode)
    ensures
        0 <= index_of(s, course, mode) <= s.len(),
        index_of(s, course, mode) < s.len() ==> s[index_of(s, course, mode)].key() == (
            course,
            mode,
        ),
        forall|j: int| 0 <= j < index_of(s, course, mode) ==> s[j].key() != (course, mode),
    decreases s.len(),
{
    if s.len() > 0 {
        let p = s.drop_last();
        lemma_index_of(p, course, mode);
        assert forall|j: int| 0 <= j < index_of(s, course, mode) implies s[j].key() != (
            course,
            mode,
        ) by {
            if j < p.len() {
                assert(p[j] == s[j]);
            }
        }
    }
}

/// What `table_of` holds for records with distinct keys: exactly their keys, each with
/// its record's player and time.
pub proof fn lemma_table_of(s: Seq<RecordView>)
    requires
        distinct_keys(s),
    ensures
        forall|i: int|
            0 <= i < s.len() ==> table_of(s).contains_key(#[trigger] s[i].key()) && table_of(
                s,
            )[s[i].key()] == s[i].holder(),
        forall|k: (Seq<char>, Mode)| #[trigger]
            table_of(s).contains_key(k) ==> index_of(s, k.0, k.1) < s.len(),
    decreases s.len(),
{
    if s.len() > 0 {
        let p = s.drop_last();
        lemma_table_of(p);
        assert forall|i: int| 0 <= i < s.len() implies table_of(s).contains_key(
            #[trigger] s[i].key(),
        ) && table_of(s)[s[i].key()] == s[i].holder() by {
            if i < s.len() - 1 {
                assert(p[i] == s[i]);
                assert(s[i].key() != s.last().key());
            }
        }
        assert forall|k: (Seq<char>, Mode)| #[trigger]
            table_of(s).contains_key(k) implies index_of(s, k.0, k.1) < s.len() by {
            lemma_index_of(p, k.0, k.1);
        }
    }
}

/// A submission keeps the keys distinct, and changes the table as `upsert_table` says.
pub proof fn lemma_upsert(s: Seq<RecordView>, r: RecordView)
    requires
        distinct_keys(s),
    ensures
        distinct_keys(upsert_records(s, r)),
        table_of(upsert_records(s, r)) == upsert_table(table_of(s), r),
{
    let i = index_of(s, r.course, r.mode);
    let after = upsert_records(s, r);
    lemma_index_of(s, r.course, r.mode);
    lemma_table_of(s);
    if i == s.len() {
        assert(after.drop_last() =~= s);
        assert(!table_of(s).contains_key(r.key()));
    } else if r.time.millis < s[i].time.millis {
        assert forall|a: int, b: int| 0 <= a < b < after.len() implies after[a].key()
            != after[b].key() by {
            assert(after[a].key() == s[a].key());
            assert(after[b].key() == s[b].key());
        }
        lemma_table_of(after);
        let want = table_of(s).insert(r.key(), r.holder());
        assert forall|k: (Seq<char>, Mode)| #[trigger]
            table_of(after).contains_key(k) implies want.contains_key(k) && want[k]
            == table_of(after)[k] by {
            lemma_index_of(after, k.0, k.1);
            let j = index_of(after, k.0, k.1);
            assert(after[j].key() == s[j].key());
        }
        assert forall|k: (Seq<char>, Mode)| #[trigger] want.contains_key(k) implies table_of(
            after,
        ).contains_key(k) by {
            if k != r.key() {
                lemma_index_of(s, k.0, k.1);
                let j = index_of(s, k.0, k.1);
                assert(after[j].key() == s[j].key());
            } else {
                assert(after[i].key() == k);
            }
        }
        assert(table_of(after) =~= want);
    } else {
        assert(table_of(s)[s[i].key()] == s[i].holder());
    }
}

/// Taking a key out keeps the keys distinct, and takes it out of the table.
pub proof fn lemma_delete(s: Seq<RecordView>, course: Seq<char>, mode: Mode)
    requires
        distinct_keys(s),
    ensures
        distinct_keys(delete_records(s, course, mode)),
        table_of(delete_records(s, course, mode)) == table_of(s).remove((course, mode)),
        table_of(s).contains_key((course, mode)) <==> index_of(s, course, mode) < s.len(),
{
    let i = index_of(s, course, mode);
    let after = delete_records(s, course, mode);
    let key = (course, mode);
    lemma_index_of(s, course, mode);
    lemma_table_of(s);
    if i == s.len() {
        assert(table_of(s).remove(key) =~= table_of(s));
    } else {
        assert(s[i].key() == key);
        assert forall|a: int, b: int| 0 <= a < b < after.len() implies after[a].key()
            != after[b].key() by {
            assert(after[a] == s[if a < i { a } else { a + 1 }]);
            assert(after[b] == s[if b < i { b } else { b + 1 }]);
        }
        lemma_table_of(after);
        let want = table_of(s).remove(key);
        assert forall|k: (Seq<char>, Mode)| #[trigger]
            table_of(after).contains_key(k) implies want.contains_key(k) && want[k] == table_of(after)[k] by {
            lemma_index_of(after, k.0, k.1);
            let j = index_of(after, k.0, k.1);
            let from = if j < i { j } else { j + 1 };
            assert(after[j] == s[from]);
            assert(s[from].key() != s[i].key());
        }
        assert forall|k: (Seq<char>, Mode)| #[trigger] want.contains_key(k) implies table_of(
            after,
        ).contains_key(k) by {
            lemma_index_of(s, k.0, k.1);
            let j = index_of(s, k.0, k.1);
            let to = if j < i { j } else { j - 1 };
            assert(after[to] == s[j]);
        }
        assert(table_of(after) =~= want);
    }
}

/// The deduplicated table of best times, one record for each course and mode.
pub struct RecordStore {
    records: Vec<Record>,
}

impl View for RecordStore {
    type V = Seq<RecordView>;

    /// The records, in the order in which their keys were first submitted.
    closed spec fn view(&self) -> Seq<RecordView> {
        views_of(self.records@)
    }
}

impl RecordStore {
    #[verifier::type_invariant]
    spec fn keys_are_distinct(self) -> bool {
        distinct_keys(views_of(self.records@))
    }

    /// The store as a table from (course, mode) to (player, time).
    pub open spec fn table(self) -> Table {
        table_of(self@)
    }

    /// An empty store.
    pub fn new() -> (s: RecordStore)
        ensures
            s@ == Seq::<RecordView>::empty(),
            s.table() == Table::empty(),
    {
        let s = RecordStore { records: Vec::new() };
        assert(s@ =~= Seq::<RecordView>::empty());
        s
    }

    /// The number of records.
    pub fn len(&self) -> (n: usize)
        ensures
            n == self@.len(),
    {
        self.records.len()
    }

    /// All records, in an order that stays the same while the store is not changed.
    /// No two of them are for the same course and mode.
    pub fn all(&self) -> (r: &Vec<Record>)
        ensures
            views_of(r@) == self@,
            distinct_keys(self@),
    {
        proof {
            use_type_invariant(self);
        }
        &self.records
    }

    /// Moves the records out, leaving the store empty until they are put back.
    fn take_records(&mut self) -> (records: Vec<Record>)
        ensures
            records@ == old(self).records@,
            final(self).records@ == Seq::<Record>::empty(),
    {
        let mut records: Vec<Record> = Vec::new();
        std::mem::swap(&mut self.records, &mut records);
        records
    }

    fn position(&self, course: &str, mode: Mode) -> (i: usize)
        ensures
            i == index_of(self@, course@, mode),
            i <= self.records.len(),
    {
        let mut i: usize = 0;
        while i < self.records.len()
            invariant
                i <= self.records.len(),
                forall|j: int| 0 <= j < i ==> (#[trigger] self@[j]).key() != (course@, mode),
            decreases self.records.len() - i,
        {
            if self.records[i].mode == mode && same_text(self.records[i].course.as_str(), course) {
                proof {
                    lemma_first_index(self@, course@, mode, i as int);
                }
                return i;
            }
            i += 1;
        }
        proof {
            lemma_first_index(self@, course@, mode, i as int);
        }
        i
    }

    /// Submits a time. A key that the store does not hold yet gets a record; a time
    /// strictly less than the one held replaces the record; an equal or greater time
    /// changes nothing.
    pub fn upsert(&mut self, course: &str, mode: Mode, player: &str, time: Time)
        ensures
            final(self)@ == upsert_records(
                old(self)@,
                RecordView { course: course@, mode, player: player@, time },
            ),
            final(self).table() == upsert_table(
                old(self).table(),
                RecordView { course: course@, mode, player: player@, time },
            ),
            distinct_keys(final(self)@),
    {
        proof {
            use_type_invariant(&*self);
            lemma_upsert(self@, RecordView { course: course@, mode, player: player@, time });
        }
        let i = self.position(course, mode);
        if i == self.records.len() {
            let record = Record { course: course.to_owned(), mode, player: player.to_owned(), time };
            let mut records = self.take_records();
            records.push(record);
            assert(views_of(records@) =~= old(self)@.push(record@));
            self.records = records;
        } else if time.millis < self.records[i].time.millis {
            let record = Record { course: course.to_owned(), mode, player: player.to_owned(), time };
            let mut records = self.take_records();
            records.set(i, record);
            assert(views_of(records@) =~= old(self)@.update(i as int, record@));
            self.records = records;
        }
    }

    /// Removes the record for the given course and mode, and says whether there was one.
    pub fn delete(&mut self, course: &str, mode: Mode) -> (found: bool)
        ensures
            found == old(self).table().contains_key((course@, mode)),
            final(self)@ == delete_records(old(self)@, course@, mode),
            final(self).table() == old(self).table().remove((course@, mode)),
            distinct_keys(final(self)@),
    {
        proof {
            use_type_invariant(&*self);
            lemma_delete(self@, course@, mode);
        }
        let i = self.position(course, mode);
        if i == self.records.len() {
            false
        } else {
            let mut records = self.take_records();
            records.remove(i);
            assert(views_of(records@) =~= old(self)@.remove(i as int));
            self.records = records;
            true
        }
    }

    /// The record for the given course and mode, if the store holds one.
    pub fn get(&self, course: &str, mode: Mode) -> (r: Option<&Record>)
        ensures
            r is Some <==> self.table().contains_key((course@, mode)),
            r matches Some(record) ==> record@.key() == (course@, mode) && record@.holder()
                == self.table()[(course@, mode)] && record@ == self@[index_of(
                self@,
                course@,
                mode,
            )],
    {
        proof {
            use_type_invariant(self);
            lemma_delete(self@, course@, mode);
            lemma_table_of(self@);
            lemma_index_of(self@, course@, mode);
        }
        let i = self.position(course, mode);
        if i == self.records.len() {
            None
        } else {
            Some(&self.records[i])
        }
    }
}

/// `index_of` is the first place whose record has the key.
pub proof fn lemma_first_index(s: Seq<RecordView>, course: Seq<char>, mode: Mode, i: int)
    requires
        0 <= i <= s.len(),
        forall|j: int| 0 <= j < i ==> (#[trigger] s[j]).key() != (course, mode),
        i < s.len() ==> s[i].key() == (course, mode),
    ensures
        index_of(s, course, mode) == i,
{
    lemma_index_of(s, course, mode);
}

} // verus!
