//! Writing a value tree as a table literal.

use vstd::prelude::*;
use vstd::string::StringExecFns;
use crate::time::time_text;
use crate::value::{fields_view, lemma_table_view, Field, FieldView, Value, ValueView};

verus! {

/// Two spaces for each level of nesting.
pub open spec fn indent_text(depth: nat) -> Seq<char>
    decreases depth,
{
    if depth == 0 {
        Seq::empty()
    } else {
        indent_text((depth - 1) as nat) + "  "@
    }
}

/// A table is written on one line where it has fields, none of them keyed and none
/// of them a table.
pub open spec fn is_inline(fields: Seq<FieldView>) -> bool {
    fields.len() > 0 && forall|i: int|
        0 <= i < fields.len() ==> (#[trigger] fields[i]).key is None && !(fields[i].value is Table)
}

/// The text of a value that is no table: `true` or `false`, a time with three digits
/// behind the point, or a string between double quotes, its characters as they are.
pub open spec fn scalar_text(v: ValueView) -> Seq<char> {
    match v {
        ValueView::Bool(b) => if b {
            "true"@
        } else {
            "false"@
        },
        ValueView::Number(t) => time_text(t.millis as int),
        ValueView::Text(s) => "\""@ + s + "\""@,
        ValueView::Table(_) => Seq::empty(),
    }
}

/// The first `n` values of a one-line table, with ", " between them.
pub open spec fn inline_text(fields: Seq<FieldView>, n: nat) -> Seq<char>
    decreases n,
{
    if n == 0 || n > fields.len() {
        Seq::empty()
    } else if n == 1 {
        scalar_text(fields[0].value)
    } else {
        inline_text(fields, (n - 1) as nat) + ", "@ + scalar_text(fields[n - 1].value)
    }
}

/// The key of a field as it stands before the value: `["key"] = `, or nothing.
pub open spec fn key_text(key: Option<Seq<char>>) -> Seq<char> {
    match key {
        Some(k) => "[\""@ + k + "\"] = "@,
        None => Seq::empty(),
    }
}

/// The text of a value that stands `depth` levels deep. A one-line table is
/// `{ a, b }`; any other table has each field on a line of its own, indented one
/// level more and followed by a comma, and its closing brace at the table's level.
pub open spec fn value_text(v: ValueView, depth: nat) -> Seq<char>
    decreases v, 0nat, 0nat,
{
    match v {
        ValueView::Table(fields) => if is_inline(fields) {
            "{ "@ + inline_text(fields, fields.len()) + " }"@
        } else {
            "{\n"@ + fields_text(fields, depth + 1, fields.len()) + indent_text(depth) + "}"@
        },
        _ => scalar_text(v),
    }
}

/// The lines of the first `n` fields of a table whose fields stand `depth` levels deep.
pub open spec fn fields_text(fields: Seq<FieldView>, depth: nat, n: nat) -> Seq<char>
    decreases fields, 1nat, n,
{
    if n == 0 || n > fields.len() {
        Seq::empty()
    } else {
        fields_text(fields, depth, (n - 1) as nat) + indent_text(depth) + key_text(
            fields[n - 1].key,
        ) + value_text(fields[n - 1].value, depth) + ",\n"@
    }
}

/// The text of a whole value: `value_text` at the outermost level.
pub open spec fn document_text(v: ValueView) -> Seq<char> {
    value_text(v, 0)
}

fn is_table(value: &Value) -> (b: bool)
    ensures
        b == (value@ is Table),
{
    match value {
        Value::Table(_) => true,
        _ => false,
    }
}

fn fits_one_line(fields: &Vec<Field>) -> (b: bool)
    ensures
        b == is_inline(fields_view(fields@)),
{
    let ghost views = fields_view(fields@);
    if fields.len() == 0 {
        return false;
    }
    let mut i: usize = 0;
    while i < fields.len()
        invariant
            i <= fields.len(),
            views == fields_view(fields@),
            forall|j: int| 0 <= j < i ==> (#[trigger] views[j]).key is None && !(views[j].value is Table),
        decreases fields.len() - i,
    {
        if fields[i].key.is_some() || is_table(&fields[i].value) {
            assert(!((#[trigger] views[i as int]).key is None && !(views[i as int].value is Table)));
            return false;
        }
        i += 1;
    }
    true
}

fn write_scalar(out: &mut String, value: &Value)
    requires
        !(value@ is Table),
    ensures
        final(out)@ == old(out)@ + scalar_text(value@),
{
    match value {
        Value::Bool(b) => {
            if *b {
                out.append("true");
            } else {
                out.append("false");
            }
        },
        Value::Number(t) => {
            t.write_to(out);
        },
        Value::Text(s) => {
            out.append("\"");
            out.append(s.as_str());
            out.append("\"");
            assert(out@ =~= old(out)@ + scalar_text(value@));
        },
        Value::Table(_) => {},
    }
}

fn write_value(out: &mut String, value: &Value, indent: &str, Ghost(depth): Ghost<nat>)
    requires
        indent@ == indent_text(depth),
    ensures
        final(out)@ == old(out)@ + value_text(value@, depth),
    decreases value,
{
    match value {
        Value::Table(fields) => {
            let ghost views = fields_view(fields@);
            proof {
                lemma_table_view(*fields);
            }
            if fits_one_line(fields) {
                out.append("{ ");
                let mut i: usize = 0;
                while i < fields.len()
                    invariant
                        i <= fields.len(),
                        views == fields_view(fields@),
                        value@ == ValueView::Table(views),
                        is_inline(views),
                        out@ == old(out)@ + "{ "@ + inline_text(views, i as nat),
                    decreases fields.len() - i,
                {
                    if i > 0 {
                        out.append(", ");
                    }
                    assert(!(views[i as int].value is Table));
                    assert(views[i as int].value == fields[i as int].value@);
                    write_scalar(out, &fields[i].value);
                    i += 1;
                    assert(out@ =~= old(out)@ + "{ "@ + inline_text(views, i as nat));
                }
                out.append(" }");
                assert(out@ =~= old(out)@ + value_text(value@, depth));
            } else {
                out.append("{\n");
                let inner = String::from_str(indent).concat("  ");
                let mut i: usize = 0;
                while i < fields.len()
                    invariant
                        i <= fields.len(),
                        views == fields_view(fields@),
                        value@ == ValueView::Table(views),
                        value == Value::Table(*fields),
                        inner@ == indent_text(depth + 1),
                        out@ == old(out)@ + "{\n"@ + fields_text(views, depth + 1, i as nat),
                    decreases fields.len() - i,
                {
                    let field = &fields[i];
                    assert(views[i as int].value == field.value@);
                    out.append(inner.as_str());
                    match &field.key {
                        Some(k) => {
                            out.append("[\"");
                            out.append(k.as_str());
                            out.append("\"] = ");
                        },
                        None => {},
                    }
                    write_value(out, &field.value, inner.as_str(), Ghost(depth + 1));
                    out.append(",\n");
                    i += 1;
                    assert(out@ =~= old(out)@ + "{\n"@ + fields_text(views, depth + 1, i as nat));
                }
                out.append(indent);
                out.append("}");
                assert(out@ =~= old(out)@ + value_text(value@, depth));
            }
        },
        _ => {
            write_scalar(out, value);
        },
    }
}

/// Writes a value as text. A table of plain values stands on one line, as in
/// `{ "Ann", 12.500 }`; any other table has one field to a line.
pub fn render(value: &Value) -> (text: String)
    ensures
        text@ == document_text(value@),
{
    let mut out = String::new();
    proof {
        reveal_strlit("");
        assert(""@ =~= indent_text(0));
    }
    write_value(&mut out, value, "", Ghost(0));
    assert(out@ =~= document_text(value@));
    out
}

} // verus!
