//! The value tree that a table literal stands for.

use vstd::prelude::*;
use crate::time::Time;

verus! {

/// A value of the text format: a boolean, a number, a string, or a table.
#[derive(Debug)]
pub enum Value {
    Bool(bool),
    Number(Time),
    Text(String),
    Table(Vec<Field>),
}

/// One field of a table: a value under a string key, or a value with no key, which
/// takes the next place in the table's sequence.
#[derive(Debug)]
pub struct Field {
    pub key: Option<String>,
    pub value: Value,
}

/// A value as a plain value.
pub enum ValueView {
    Bool(bool),
    Number(Time),
    Text(Seq<char>),
    Table(Seq<FieldView>),
}

/// A field as a plain value.
pub struct FieldView {
    pub key: Option<Seq<char>>,
    pub value: ValueView,
}

impl View for Value {
    type V = ValueView;

    open spec fn view(&self) -> ValueView
        decreases self, 0nat,
    {
        match self {
            Value::Bool(b) => ValueView::Bool(*b),
            Value::Number(t) => ValueView::Number(*t),
            Value::Text(s) => ValueView::Text(s@),
            Value::Table(fields) => ValueView::Table(first_views(fields@, fields@.len())),
        }
    }
}

/// A key as a plain value.
pub open spec fn key_view(key: Option<String>) -> Option<Seq<char>> {
    match key {
        Some(k) => Some(k@),
        None => None,
    }
}

/// The first `n` fields of a table as plain values.
pub open spec fn first_views(fields: Seq<Field>, n: nat) -> Seq<FieldView>
    decreases fields, n,
{
    if n == 0 || n > fields.len() {
        Seq::empty()
    } else {
        first_views(fields, (n - 1) as nat).push(
            FieldView { key: key_view(fields[n - 1].key), value: fields[n - 1].value.view() },
        )
    }
}

impl View for Field {
    type V = FieldView;

    open spec fn view(&self) -> FieldView {
        FieldView { key: key_view(self.key), value: self.value@ }
    }
}

/// The fields of a table as plain values.
pub open spec fn fields_view(fields: Seq<Field>) -> Seq<FieldView> {
    fields.map_values(|f: Field| f@)
}

proof fn lemma_first_views(fields: Seq<Field>, n: nat)
    requires
        n <= fields.len(),
    ensures
        first_views(fields, n) == fields_view(fields).take(n as int),
    decreases n,
{
    if n > 0 {
        lemma_first_views(fields, (n - 1) as nat);
        assert(fields[n - 1]@.value == fields[n - 1].value@);
    }
    assert(first_views(fields, n) =~= fields_view(fields).take(n as int));
}

/// The view of a table is the table of its fields' views.
pub proof fn lemma_table_view(fields: Vec<Field>)
    ensures
        Value::Table(fields)@ == ValueView::Table(fields_view(fields@)),
{
    lemma_first_views(fields@, fields@.len());
    assert(fields_view(fields@).take(fields@.len() as int) =~= fields_view(fields@));
}

} // verus!
