//! The ranked lists of the main course: three categories, each sorted by time and
//! cut off at its capacity.

use vstd::prelude::*;
use crate::text::same_text;
use crate::time::Time;

verus! {

/// The three ranked categories of the main course.
#[derive(Clone, Copy, Debug, PartialEq, Eq, Structural)]
pub enum Category {
    Bounce,
    Bounceless,
    NoPlat,
}

impl Category {
    /// How many entries the category keeps: 12, 11 and 10.
    pub open spec fn places(self) -> nat {
        match self {
            Category::Bounce => 12,
            Category::Bounceless => 11,
            Category::NoPlat => 10,
        }
    }

    /// The category's tag.
    pub open spec fn name_text(self) -> Seq<char> {
        match self {
            Category::Bounce => "Bounce"@,
            Category::Bounceless => "Bounceless"@,
            Category::NoPlat => "NoPlat"@,
        }
    }

    /// The category that a tag names, if it names one.
    pub open spec fn of_name(name: Seq<char>) -> Option<Category> {
        if name == "Bounce"@ {
            Some(Category::Bounce)
        } else if name == "Bounceless"@ {
            Some(Category::Bounceless)
        } else if name == "NoPlat"@ {
            Some(Category::NoPlat)
        } else {
            None
        }
    }

    /// The fixed capacity of the category.
    pub fn capacity(self) -> (n: usize)
        ensures
            n == self.places(),
    {
        match self {
            Category::Bounce => 12,
            Category::Bounceless => 11,
            Category::NoPlat => 10,
        }
    }

    /// The category's tag as the text format writes it.
    pub fn name(self) -> (s: &'static str)
        ensures
            s@ == self.name_text(),
    {
        match self {
            Category::Bounce => "Bounce",
            Category::Bounceless => "Bounceless",
            Category::NoPlat => "NoPlat",
        }
    }

    /// Reads a tag: "Bounce", "Bounceless" or "NoPlat"; any other names no category.
    pub fn from_name(name: &str) -> (c: Option<Category>)
        ensures
            c == Category::of_name(name@),
    {
        if same_text(name, "Bounce") {
            Some(Category::Bounce)
        } else if same_text(name, "Bounceless") {
            Some(Category::Bounceless)
        } else if same_text(name, "NoPlat") {
            Some(Category::NoPlat)
        } else {
            None
        }
    }
}

/// One entry of a ranked list.
#[derive(Clone, Debug)]
pub struct RankedEntry {
    pub player: String,
    pub time: Time,
}

/// A ranked entry as a plain value.
pub struct EntryView {
    pub player: Seq<char>,
    pub time: Time,
}

impl View for RankedEntry {
    type V = EntryView;

    open spec fn view(&self) -> EntryView {
        EntryView { player: self.player@, time: self.time }
    }
}

/// The entries of a list as plain values.
pub open spec fn entries_of(list: Seq<RankedEntry>) -> Seq<EntryView> {
    list.map_values(|e: RankedEntry| e@)
}

/// The times of `s` never go down.
pub open spec fn ascending(s: Seq<EntryView>) -> bool {
    forall|i: int, j: int| 0 <= i < j < s.len() ==> s[i].time.millis <= s[j].time.millis
}

/// A list as a category keeps it: ascending by time and within the capacity.
pub open spec fn ranked(s: Seq<EntryView>, places: nat) -> bool {
    ascending(s) && s.len() <= places
}

/// The place where an entry with time `t` goes: that of the first entry with a greater
/// time, or the end. It comes after every entry with the same time.
pub open spec fn place_of(s: Seq<EntryView>, t: Time) -> int
    decreases s.len(),
{
    if s.len() == 0 {
        0
    } else {
        let before = place_of(s.drop_last(), t);
        if before < s.len() - 1 {
            before
        } else if s.last().time.millis > t.millis {
            s.len() - 1
        } else {
            s.len() as int
        }
    }
}

/// The entries sorted by time, those with equal times left in the order they had:
/// each entry in turn goes behind the entries before it that are no slower.
pub open spec fn sorted_by_time(s: Seq<EntryView>) -> Seq<EntryView>
    decreases s.len(),
{
    if s.len() == 0 {
        s
    } else {
        let before = sorted_by_time(s.drop_last());
        before.insert(place_of(before, s.last().time), s.last())
    }
}

/// The list after an insertion: the entry is added at the end, the list is sorted by
/// time with equal times left in the order they had, and what lies beyond the capacity
/// is dropped.
pub open spec fn insert_entry(s: Seq<EntryView>, e: EntryView, places: nat) -> Seq<EntryView> {
    let all = sorted_by_time(s.push(e));
    if all.len() > places {
        all.take(places as int)
    } else {
        all
    }
}

/// What `place_of` is: a place in the list or its end, with no slower entry before
/// it and a slower one at it.
pub proof fn lemma_place_of(s: Seq<EntryView>, t: Time)
    ensures
        0 <= place_of(s, t) <= s.len(),
        place_of(s, t) < s.len() ==> s[place_of(s, t)].time.millis > t.millis,
        forall|j: int| 0 <= j < place_of(s, t) ==> (#[trigger] s[j]).time.millis <= t.millis,
    decreases s.len(),
{
    if s.len() > 0 {
        let p = s.drop_last();
        lemma_place_of(p, t);
        assert forall|j: int| 0 <= j < place_of(s, t) implies (#[trigger] s[j]).time.millis
            <= t.millis by {
            if j < p.len() {
                assert(p[j] == s[j]);
            }
        }
    }
}

/// Putting an entry into an ascending list at `place_of` leaves the others as they
/// were: the entries before it are no slower, those after it strictly slower, and the
/// whole is ascending.
pub proof fn lemma_sorted_insert(s: Seq<EntryView>, e: EntryView)
    requires
        ascending(s),
    ensures
        ascending(s.insert(place_of(s, e.time), e)),
        s.insert(place_of(s, e.time), e).remove(place_of(s, e.time)) == s,
        s.insert(place_of(s, e.time), e)[place_of(s, e.time)] == e,
        forall|j: int|
            0 <= j < place_of(s, e.time) ==> (#[trigger] s.insert(
                place_of(s, e.time),
                e,
            )[j]).time.millis <= e.time.millis,
        forall|j: int|
            place_of(s, e.time) < j <= s.len() ==> (#[trigger] s.insert(
                place_of(s, e.time),
                e,
            )[j]).time.millis > e.time.millis,
{
    let p = place_of(s, e.time);
    let all = s.insert(p, e);
    lemma_place_of(s, e.time);
    assert(all.remove(p) =~= s);
    assert forall|j: int| p < j <= s.len() implies (#[trigger] all[j]).time.millis
        > e.time.millis by {
        assert(all[j] == s[j - 1]);
        assert(s[p].time.millis <= s[j - 1].time.millis);
    }
    assert forall|j: int| 0 <= j < p implies (#[trigger] all[j]).time.millis
        <= e.time.millis by {
        assert(all[j] == s[j]);
    }
    assert forall|i: int, j: int| 0 <= i < j < all.len() implies all[i].time.millis
        <= all[j].time.millis by {
        if i != p && j != p {
            let a = if i < p { i } else { i - 1 };
            let b = if j < p { j } else { j - 1 };
            assert(all[i] == s[a]);
            assert(all[j] == s[b]);
        }
    }
}

/// Sorting gives the same entries, each as often as before, in ascending order.
pub proof fn lemma_sorted_by_time(s: Seq<EntryView>)
    ensures
        ascending(sorted_by_time(s)),
        sorted_by_time(s).len() == s.len(),
        sorted_by_time(s).to_multiset() == s.to_multiset(),
    decreases s.len(),
{
    if s.len() > 0 {
        let before = sorted_by_time(s.drop_last());
        let at = place_of(before, s.last().time);
        let all = before.insert(at, s.last());
        lemma_sorted_by_time(s.drop_last());
        lemma_sorted_insert(before, s.last());
        lemma_place_of(before, s.last().time);
        vstd::seq_lib::to_multiset_remove(all, at);
        vstd::seq_lib::to_multiset_build(s.drop_last(), s.last());
        assert(s.drop_last().push(s.last()) =~= s);
        assert(all.to_multiset() =~= before.to_multiset().insert(s.last())) by {
            all.to_multiset_ensures();
            assert(all.contains(all[at]));
        }
    }
}

/// Sorting leaves an ascending list as it is.
pub proof fn lemma_sorted_stays(s: Seq<EntryView>)
    requires
        ascending(s),
    ensures
        sorted_by_time(s) == s,
    decreases s.len(),
{
    if s.len() > 0 {
        let before = s.drop_last();
        lemma_sorted_stays(before);
        assert forall|j: int| 0 <= j < before.len() implies (#[trigger] before[j]).time.millis
            <= s.last().time.millis by {
            assert(before[j] == s[j]);
        }
        lemma_first_place(before, s.last().time, before.len() as int);
        assert(before.insert(before.len() as int, s.last()) =~= s);
    }
}

/// On an ascending list an insertion puts the entry at `place_of`, and drops what
/// then lies beyond the capacity.
pub proof fn lemma_insert_entry(s: Seq<EntryView>, e: EntryView, places: nat)
    requires
        ascending(s),
    ensures
        sorted_by_time(s.push(e)) == s.insert(place_of(s, e.time), e),
        insert_entry(s, e, places) == if s.len() + 1 > places {
            s.insert(place_of(s, e.time), e).take(places as int)
        } else {
            s.insert(place_of(s, e.time), e)
        },
{
    lemma_sorted_stays(s);
    lemma_place_of(s, e.time);
    assert(s.push(e).drop_last() =~= s);
}

/// An insertion keeps a list ranked.
pub proof fn lemma_insert_keeps_ranked(s: Seq<EntryView>, e: EntryView, places: nat)
    requires
        ranked(s, places),
    ensures
        ranked(insert_entry(s, e, places), places),
{
    lemma_sorted_insert(s, e);
    lemma_insert_entry(s, e, places);
    lemma_place_of(s, e.time);
}

/// The three lists as plain values.
pub struct RankedView {
    pub bounce: Seq<EntryView>,
    pub bounceless: Seq<EntryView>,
    pub noplat: Seq<EntryView>,
}

impl RankedView {
    /// Three empty lists.
    pub open spec fn empty() -> RankedView {
        RankedView { bounce: Seq::empty(), bounceless: Seq::empty(), noplat: Seq::empty() }
    }

    /// The list of one category.
    pub open spec fn list(self, category: Category) -> Seq<EntryView> {
        match category {
            Category::Bounce => self.bounce,
            Category::Bounceless => self.bounceless,
            Category::NoPlat => self.noplat,
        }
    }

    /// The lists with the one of `category` replaced.
    pub open spec fn with_list(self, category: Category, list: Seq<EntryView>) -> RankedView {
        match category {
            Category::Bounce => RankedView { bounce: list, ..self },
            Category::Bounceless => RankedView { bounceless: list, ..self },
            Category::NoPlat => RankedView { noplat: list, ..self },
        }
    }

    /// The lists after an insertion into `category`; the other two stay as they are.
    pub open spec fn insert(self, category: Category, e: EntryView) -> RankedView {
        self.with_list(category, insert_entry(self.list(category), e, category.places()))
    }

    /// The lists after an insertion under a tag: a tag that names no category changes
    /// nothing.
    pub open spec fn insert_named(self, tag: Seq<char>, e: EntryView) -> RankedView {
        match Category::of_name(tag) {
            Some(category) => self.insert(category, e),
            None => self,
        }
    }

    /// Every list is ascending by time and within its category's capacity.
    pub open spec fn all_ranked(self) -> bool {
        &&& ranked(self.bounce, Category::Bounce.places())
        &&& ranked(self.bounceless, Category::Bounceless.places())
        &&& ranked(self.noplat, Category::NoPlat.places())
    }

    /// No list holds an entry.
    pub open spec fn is_empty(self) -> bool {
        self.bounce.len() == 0 && self.bounceless.len() == 0 && self.noplat.len() == 0
    }
}

/// The bounded, sorted lists of the three categories.
pub struct RankedLists {
    bounce: Vec<RankedEntry>,
    bounceless: Vec<RankedEntry>,
    noplat: Vec<RankedEntry>,
}

impl View for RankedLists {
    type V = RankedView;

    closed spec fn view(&self) -> RankedView {
        RankedView {
            bounce: entries_of(self.bounce@),
            bounceless: entries_of(self.bounceless@),
            noplat: entries_of(self.noplat@),
        }
    }
}

/// Puts an entry into an ascending list, behind the entries that are no slower, and
/// drops what then lies beyond `places`.
fn insert_into(list: &mut Vec<RankedEntry>, entry: RankedEntry, places: usize)
    requires
        ascending(entries_of(old(list)@)),
        old(list).len() < usize::MAX,
    ensures
        entries_of(final(list)@) == insert_entry(entries_of(old(list)@), entry@, places as nat),
{
    let ghost before = entries_of(list@);
    let mut at: usize = 0;
    while at < list.len() && list[at].time.millis <= entry.time.millis
        invariant
            at <= list.len(),
            entries_of(list@) == before,
            forall|j: int| 0 <= j < at ==> (#[trigger] before[j]).time.millis <= entry.time.millis,
        decreases list.len() - at,
    {
        at += 1;
    }
    proof {
        lemma_first_place(before, entry.time, at as int);
        lemma_insert_entry(before, entry@, places as nat);
    }
    list.insert(at, entry);
    assert(entries_of(list@) =~= before.insert(at as int, entry@));
    if list.len() > places {
        list.truncate(places);
        assert(entries_of(list@) =~= before.insert(at as int, entry@).take(places as int));
    }
}

impl RankedLists {
    #[verifier::type_invariant]
    spec fn lists_are_ranked(self) -> bool {
        &&& ranked(entries_of(self.bounce@), Category::Bounce.places())
        &&& ranked(entries_of(self.bounceless@), Category::Bounceless.places())
        &&& ranked(entries_of(self.noplat@), Category::NoPlat.places())
    }

    /// Three empty lists.
    pub fn new() -> (r: RankedLists)
        ensures
            r@ == RankedView::empty(),
    {
        let r = RankedLists { bounce: Vec::new(), bounceless: Vec::new(), noplat: Vec::new() };
        assert(r@.bounce =~= Seq::empty());
        assert(r@.bounceless =~= Seq::empty());
        assert(r@.noplat =~= Seq::empty());
        r
    }

    /// The list of one category: ascending by time, and never longer than the
    /// category's capacity.
    pub fn entries(&self, category: Category) -> (list: &Vec<RankedEntry>)
        ensures
            entries_of(list@) == self@.list(category),
            ranked(self@.list(category), category.places()),
            self@.all_ranked(),
    {
        proof {
            use_type_invariant(self);
        }
        match category {
            Category::Bounce => &self.bounce,
            Category::Bounceless => &self.bounceless,
            Category::NoPlat => &self.noplat,
        }
    }

    /// The three lists, for `Bounce`, `Bounceless` and `NoPlat` in that order.
    pub fn categories(&self) -> (lists: (&Vec<RankedEntry>, &Vec<RankedEntry>, &Vec<RankedEntry>))
        ensures
            entries_of(lists.0@) == self@.bounce,
            entries_of(lists.1@) == self@.bounceless,
            entries_of(lists.2@) == self@.noplat,
            self@.all_ranked(),
    {
        proof {
            use_type_invariant(self);
        }
        (&self.bounce, &self.bounceless, &self.noplat)
    }

    /// Whether all three lists are empty.
    pub fn is_empty(&self) -> (b: bool)
        ensures
            b == self@.is_empty(),
    {
        self.bounce.len() == 0 && self.bounceless.len() == 0 && self.noplat.len() == 0
    }

    /// Moves the list of one category out, leaving it empty until it is put back.
    fn take_list(&mut self, category: Category) -> (list: Vec<RankedEntry>)
        ensures
            entries_of(list@) == old(self)@.list(category),
            final(self)@ == old(self)@.with_list(category, Seq::empty()),
    {
        proof {
            use_type_invariant(&*self);
        }
        let mut list: Vec<RankedEntry> = Vec::new();
        assert(entries_of(list@) =~= Seq::empty());
        match category {
            Category::Bounce => std::mem::swap(&mut self.bounce, &mut list),
            Category::Bounceless => std::mem::swap(&mut self.bounceless, &mut list),
            Category::NoPlat => std::mem::swap(&mut self.noplat, &mut list),
        }
        list
    }

    /// Adds an entry to a category. The entry goes behind those that are no slower,
    /// and the slowest entries beyond the category's capacity are dropped.
    pub fn insert_in(&mut self, category: Category, player: &str, time: Time)
        ensures
            final(self)@ == old(self)@.insert(category, EntryView { player: player@, time }),
            final(self)@.all_ranked(),
    {
        proof {
            use_type_invariant(&*self);
            lemma_insert_keeps_ranked(
                self@.list(category),
                EntryView { player: player@, time },
                category.places(),
            );
        }
        let entry = RankedEntry { player: player.to_owned(), time };
        let mut list = self.take_list(category);
        insert_into(&mut list, entry, category.capacity());
        match category {
            Category::Bounce => {
                self.bounce = list;
            },
            Category::Bounceless => {
                self.bounceless = list;
            },
            Category::NoPlat => {
                self.noplat = list;
            },
        }
    }

    /// Adds an entry under a tag, and says whether the tag names a category. With any
    /// tag but "Bounce", "Bounceless" and "NoPlat" nothing changes.
    pub fn insert(&mut self, category: &str, player: &str, time: Time) -> (known: bool)
        ensures
            known == Category::of_name(category@).is_some(),
            final(self)@ == old(self)@.insert_named(
                category@,
                EntryView { player: player@, time },
            ),
            final(self)@.all_ranked(),
    {
        proof {
            use_type_invariant(&*self);
        }
        match Category::from_name(category) {
            Some(c) => {
                self.insert_in(c, player, time);
                true
            },
            None => false,
        }
    }
}

/// `place_of` is the first place whose entry is slower than `t`.
pub proof fn lemma_first_place(s: Seq<EntryView>, t: Time, at: int)
    requires
        0 <= at <= s.len(),
        forall|j: int| 0 <= j < at ==> (#[trigger] s[j]).time.millis <= t.millis,
        at < s.len() ==> s[at].time.millis > t.millis,
    ensures
        place_of(s, t) == at,
{
    lemma_place_of(s, t);
}

} // verus!
