//! What `parse` reads of a text that `render` wrote.

use vstd::prelude::*;
use crate::parse::{
    digit_value, digits_end, digits_value, document_at, fields_at, fraction_digit,
    fraction_millis, is_digit, is_space, key_at, number_at, skip_spaces, string_at, value_at,
    word_at, MAX_DEPTH,
};
use crate::render::{
    document_text, fields_text, indent_text, inline_text, is_inline, key_text, scalar_text,
    value_text,
};
use crate::time::{digit_char, digits_text, magnitude, time_text, Time};
use crate::value::{FieldView, ValueView};

verus! {

/// A text stands at a place exactly where its two halves stand one behind the other.
pub proof fn lemma_word_split(s: Seq<char>, pos: int, a: Seq<char>, b: Seq<char>)
    ensures
        word_at(s, pos, a + b) <==> word_at(s, pos, a) && word_at(s, pos + a.len(), b),
{
    if word_at(s, pos, a + b) {
        assert(s.subrange(pos, pos + a.len()) =~= a) by {
            assert forall|i: int| 0 <= i < a.len() implies s.subrange(pos, pos + a.len())[i]
                == a[i] by {
                assert(s.subrange(pos, pos + (a + b).len())[i] == (a + b)[i]);
            }
        }
        assert(s.subrange(pos + a.len(), pos + a.len() + b.len()) =~= b) by {
            assert forall|i: int| 0 <= i < b.len() implies s.subrange(
                pos + a.len(),
                pos + a.len() + b.len(),
            )[i] == b[i] by {
                assert(s.subrange(pos, pos + (a + b).len())[a.len() + i] == (a + b)[a.len() + i]);
            }
        }
    }
    if word_at(s, pos, a) && word_at(s, pos + a.len(), b) {
        assert(s.subrange(pos, pos + (a + b).len()) =~= a + b) by {
            assert forall|i: int| 0 <= i < (a + b).len() implies s.subrange(
                pos,
                pos + (a + b).len(),
            )[i] == (a + b)[i] by {
                if i < a.len() {
                    assert(s.subrange(pos, pos + a.len())[i] == a[i]);
                } else {
                    assert(s.subrange(pos + a.len(), pos + a.len() + b.len())[i - a.len()] == b[i
                        - a.len()]);
                }
            }
        }
    }
}

/// The characters of a text that stands at a place.
pub proof fn lemma_word_chars(s: Seq<char>, pos: int, word: Seq<char>)
    requires
        word_at(s, pos, word),
    ensures
        forall|i: int| 0 <= i < word.len() ==> s[pos + i] == #[trigger] word[i],
{
    assert forall|i: int| 0 <= i < word.len() implies s[pos + i] == #[trigger] word[i] by {
        assert(s.subrange(pos, pos + word.len())[i] == word[i]);
    }
}

/// Skipping spaces from `from` ends at `to` where only spaces lie between and none
/// stands at `to`.
pub proof fn lemma_skip_to(s: Seq<char>, from: int, to: int)
    requires
        0 <= from <= to <= s.len(),
        forall|i: int| from <= i < to ==> is_space(#[trigger] s[i]),
        to < s.len() ==> !is_space(s[to]),
    ensures
        skip_spaces(s, from) == to,
    decreases to - from,
{
    if from < to {
        lemma_skip_to(s, from + 1, to);
    }
}

/// The digits run from `from` up to `to` where only digits lie between and none
/// stands at `to`.
pub proof fn lemma_digits_to(s: Seq<char>, from: int, to: int)
    requires
        0 <= from <= to <= s.len(),
        forall|i: int| from <= i < to ==> is_digit(#[trigger] s[i]),
        to < s.len() ==> !is_digit(s[to]),
    ensures
        digits_end(s, from) == to,
    decreases to - from,
{
    if from < to {
        lemma_digits_to(s, from + 1, to);
    }
}

/// A digit's character is a digit and stands for it.
pub proof fn lemma_digit_char(d: int)
    requires
        0 <= d <= 9,
    ensures
        is_digit(digit_char(d)),
        digit_value(digit_char(d)) == d,
        digit_char(d) != '-',
        digit_char(d) != '.',
{
}

/// The digits of a number are digits, and they write the number.
pub proof fn lemma_digits_text(s: Seq<char>, pos: int, n: nat)
    requires
        word_at(s, pos, digits_text(n)),
    ensures
        digits_text(n).len() >= 1,
        forall|i: int| pos <= i < pos + digits_text(n).len() ==> is_digit(#[trigger] s[i]),
        digits_value(s, pos, pos + digits_text(n).len()) == n,
    decreases n,
{
    let text = digits_text(n);
    lemma_word_chars(s, pos, text);
    if n < 10 {
        lemma_digit_char(n as int);
        assert(s[pos + 0] == text[0]);
        assert(digits_value(s, pos, pos) == 0);
    } else {
        let head = digits_text(n / 10);
        let last = digit_char((n % 10) as int);
        lemma_digit_char((n % 10) as int);
        assert(text == head + seq![last]);
        lemma_word_split(s, pos, head, seq![last]);
        lemma_digits_text(s, pos, n / 10);
        assert(s[pos + head.len()] == text[head.len() as int]);
        assert forall|i: int| pos <= i < pos + text.len() implies is_digit(#[trigger] s[i]) by {
            if i == pos + head.len() {
            }
        }
    }
}

/// The three digits of a number below 1000 make the number.
proof fn lemma_three_digits(part: nat)
    requires
        part < 1000,
    ensures
        part / 100 <= 9,
        part / 10 % 10 <= 9,
        part % 10 <= 9,
        (part / 100) * 100 + (part / 10 % 10) * 10 + part % 10 == part,
{
    let tens = part / 10;
    assert(part == 10 * tens + part % 10);
    assert(tens == 10 * (tens / 10) + tens % 10);
    assert(tens / 10 == part / 100);
}

/// Where a time's text stands: the sign, the digits of the whole seconds, the point
/// and three digits.
proof fn lemma_time_text_parts(s: Seq<char>, pos: int, millis: int)
    requires
        word_at(s, pos, time_text(millis)),
    ensures
        ({
            let size = magnitude(millis);
            let start = if millis < 0 {
                pos + 1
            } else {
                pos
            };
            let whole_end = start + digits_text(size / 1000).len();
            &&& 0 <= pos < s.len()
            &&& (s[pos] == '-') == (millis < 0)
            &&& start < whole_end
            &&& whole_end + 4 == pos + time_text(millis).len()
            &&& whole_end + 4 <= s.len()
            &&& forall|i: int| start <= i < whole_end ==> is_digit(#[trigger] s[i])
            &&& digits_value(s, start, whole_end) == size / 1000
            &&& s[whole_end] == '.'
            &&& s[whole_end + 1] == digit_char((size % 1000 / 100) as int)
            &&& s[whole_end + 2] == digit_char((size % 1000 / 10 % 10) as int)
            &&& s[whole_end + 3] == digit_char((size % 1000 % 10) as int)
        }),
{
    let size = magnitude(millis);
    let sign = if millis < 0 {
        seq!['-']
    } else {
        Seq::<char>::empty()
    };
    let whole = digits_text(size / 1000);
    let part = size % 1000;
    let tail = seq![
        '.',
        digit_char((part / 100) as int),
        digit_char((part / 10 % 10) as int),
        digit_char((part % 10) as int),
    ];
    assert(time_text(millis) == sign + whole + tail);
    lemma_word_split(s, pos, sign + whole, tail);
    lemma_word_split(s, pos, sign, whole);
    let start = pos + sign.len();
    lemma_digits_text(s, start, size / 1000);
    let whole_end = start + whole.len();
    lemma_word_chars(s, whole_end, tail);
    assert(s[whole_end + 0] == tail[0]);
    assert(s[whole_end + 1] == tail[1]);
    assert(s[whole_end + 2] == tail[2]);
    assert(s[whole_end + 3] == tail[3]);
    if millis < 0 {
        lemma_word_chars(s, pos, sign);
        assert(s[pos + 0] == sign[0]);
    } else {
        assert(is_digit(s[start]));
    }
}

/// The number that reads a time's text is the time.
pub proof fn lemma_number_read_back(s: Seq<char>, pos: int, time: Time)
    requires
        word_at(s, pos, time_text(time.millis as int)),
        pos + time_text(time.millis as int).len() < s.len() ==> !is_digit(
            s[pos + time_text(time.millis as int).len()],
        ),
    ensures
        number_at(s, pos) == Some((time, pos + time_text(time.millis as int).len())),
        time_text(time.millis as int).len() >= 5,
        is_digit(s[pos]) || s[pos] == '-',
{
    let m = time.millis as int;
    let size = magnitude(m);
    let part = size % 1000;
    lemma_time_text_parts(s, pos, m);
    lemma_three_digits(part);
    let start = if m < 0 {
        pos + 1
    } else {
        pos
    };
    let whole_end = start + digits_text(size / 1000).len();
    let from = whole_end + 1;
    let end = from + 3;
    lemma_digit_char((part / 100) as int);
    lemma_digit_char((part / 10 % 10) as int);
    lemma_digit_char((part % 10) as int);
    assert(digits_end(s, start) == whole_end) by {
        lemma_digits_to(s, start, whole_end);
    }
    assert(digits_end(s, from) == end) by {
        assert forall|i: int| from <= i < end implies is_digit(#[trigger] s[i]) by {
            if i == from {
            } else if i == from + 1 {
            } else {
            }
        }
        lemma_digits_to(s, from, end);
    }
    assert(fraction_millis(s, from, end) == part) by {
        assert(fraction_digit(s, from, end, 0) == part / 100);
        assert(fraction_digit(s, from, end, 1) == part / 10 % 10);
        assert(fraction_digit(s, from, end, 2) == part % 10);
        assert(fraction_digit(s, from, end, 3) == 0);
    }
    assert(size / 1000 * 1000 + part == size);
}

/// A string that the text format can hold as it is: without a double quote, a
/// backslash or a line break.
pub open spec fn plain_text(t: Seq<char>) -> bool {
    forall|i: int| 0 <= i < t.len() ==> (#[trigger] t[i]) != '"' && t[i] != '\\' && t[i] != '\n'
}

/// A key that is plain, or no key.
pub open spec fn plain_key(key: Option<Seq<char>>) -> bool {
    match key {
        Some(k) => plain_text(k),
        None => true,
    }
}

/// A value whose strings and keys are all plain, with tables nested at most `depth`
/// deep.
pub open spec fn plain_value(v: ValueView, depth: nat) -> bool
    decreases v,
{
    match v {
        ValueView::Text(t) => plain_text(t),
        ValueView::Table(fields) => depth > 0 && forall|i: int|
            0 <= i < fields.len() ==> plain_key((#[trigger] fields[i]).key) && plain_value(
                fields[i].value,
                (depth - 1) as nat,
            ),
        _ => true,
    }
}

/// The characters of the pieces that the text is made of.
proof fn lemma_pieces()
    ensures
        "{\n"@ == seq!['{', '\n'],
        "{ "@ == seq!['{', ' '],
        " }"@ == seq![' ', '}'],
        "}"@ == seq!['}'],
        ", "@ == seq![',', ' '],
        ",\n"@ == seq![',', '\n'],
        "  "@ == seq![' ', ' '],
        "\""@ == seq!['"'],
        "[\""@ == seq!['[', '"'],
        "\"] = "@ == seq!['"', ']', ' ', '=', ' '],
        "true"@ == seq!['t', 'r', 'u', 'e'],
        "false"@ == seq!['f', 'a', 'l', 's', 'e'],
{
    reveal_strlit("{\n");
    reveal_strlit("{ ");
    reveal_strlit(" }");
    reveal_strlit("}");
    reveal_strlit(", ");
    reveal_strlit(",\n");
    reveal_strlit("  ");
    reveal_strlit("\"");
    reveal_strlit("[\"");
    reveal_strlit("\"] = ");
    reveal_strlit("true");
    reveal_strlit("false");
    assert("{\n"@ =~= seq!['{', '\n']);
    assert("{ "@ =~= seq!['{', ' ']);
    assert(" }"@ =~= seq![' ', '}']);
    assert("}"@ =~= seq!['}']);
    assert(", "@ =~= seq![',', ' ']);
    assert(",\n"@ =~= seq![',', '\n']);
    assert("  "@ =~= seq![' ', ' ']);
    assert("\""@ =~= seq!['"']);
    assert("[\""@ =~= seq!['[', '"']);
    assert("\"] = "@ =~= seq!['"', ']', ' ', '=', ' ']);
    assert("true"@ =~= seq!['t', 'r', 'u', 'e']);
    assert("false"@ =~= seq!['f', 'a', 'l', 's', 'e']);
}

/// An indentation is spaces, two for each level.
proof fn lemma_indent(level: nat)
    ensures
        indent_text(level).len() == 2 * level,
        forall|i: int| 0 <= i < 2 * level ==> (#[trigger] indent_text(level)[i]) == ' ',
    decreases level,
{
    lemma_pieces();
    if level > 0 {
        lemma_indent((level - 1) as nat);
    }
}

/// A plain string between its quotes is read back as it is.
proof fn lemma_string_read_back(s: Seq<char>, pos: int, t: Seq<char>)
    requires
        plain_text(t),
        word_at(s, pos, t),
        pos + t.len() < s.len(),
        s[pos + t.len()] == '"',
    ensures
        string_at(s, pos) == Some((t, pos + t.len() + 1)),
    decreases t.len(),
{
    if t.len() == 0 {
        assert(t =~= Seq::<char>::empty());
    } else {
        let rest = t.drop_first();
        lemma_word_chars(s, pos, t);
        assert(s[pos + 0] == t[0]);
        assert(t =~= seq![t[0]] + rest);
        lemma_word_split(s, pos, seq![t[0]], rest);
        assert forall|i: int| 0 <= i < rest.len() implies (#[trigger] rest[i]) != '"' && rest[i]
            != '\\' && rest[i] != '\n' by {
            assert(rest[i] == t[i + 1]);
        }
        lemma_string_read_back(s, pos + 1, rest);
    }
}

/// The character that a value's text may start with.
pub open spec fn starts_value(c: char) -> bool {
    c == '{' || c == '"' || c == 't' || c == 'f' || c == '-' || is_digit(c)
}

/// A value's text is not empty and starts with no space, bracket or closing brace.
proof fn lemma_value_starts(s: Seq<char>, pos: int, v: ValueView, level: nat)
    requires
        word_at(s, pos, value_text(v, level)),
    ensures
        pos < s.len(),
        value_text(v, level).len() > 0,
        starts_value(s[pos]),
{
    lemma_pieces();
    match v {
        ValueView::Bool(b) => {
            lemma_word_chars(s, pos, value_text(v, level));
            assert(s[pos + 0] == value_text(v, level)[0]);
        },
        ValueView::Number(t) => {
            lemma_time_text_parts(s, pos, t.millis as int);
        },
        ValueView::Text(t) => {
            lemma_word_split(s, pos, "\""@ + t, "\""@);
            lemma_word_split(s, pos, "\""@, t);
            lemma_word_chars(s, pos, "\""@);
            assert(s[pos + 0] == "\""@[0]);
        },
        ValueView::Table(fields) => {
            if is_inline(fields) {
                lemma_word_split(s, pos, "{ "@ + inline_text(fields, fields.len()), " }"@);
                lemma_word_split(s, pos, "{ "@, inline_text(fields, fields.len()));
                lemma_word_chars(s, pos, "{ "@);
                assert(s[pos + 0] == "{ "@[0]);
            } else {
                let body = fields_text(fields, level + 1, fields.len());
                lemma_word_split(s, pos, "{\n"@ + body + indent_text(level), "}"@);
                lemma_word_split(s, pos, "{\n"@ + body, indent_text(level));
                lemma_word_split(s, pos, "{\n"@, body);
                lemma_word_chars(s, pos, "{\n"@);
                assert(s[pos + 0] == "{\n"@[0]);
            }
        },
    }
}

/// A value that is no table is read back from its text.
proof fn lemma_scalar_read_back(s: Seq<char>, pos: int, v: ValueView, depth: nat)
    requires
        !(v is Table),
        plain_value(v, depth),
        word_at(s, pos, scalar_text(v)),
        v is Number && pos + scalar_text(v).len() < s.len() ==> !is_digit(
            s[pos + scalar_text(v).len()],
        ),
    ensures
        value_at(s, pos, depth) == Some((v, pos + scalar_text(v).len())),
{
    lemma_pieces();
    match v {
        ValueView::Bool(b) => {
            lemma_word_chars(s, pos, scalar_text(v));
            assert(s[pos + 0] == scalar_text(v)[0]);
            if !b {
                assert(!word_at(s, pos, "true"@)) by {
                    if word_at(s, pos, "true"@) {
                        lemma_word_chars(s, pos, "true"@);
                        assert(s[pos + 0] == "true"@[0]);
                    }
                }
            }
        },
        ValueView::Number(t) => {
            lemma_number_read_back(s, pos, t);
            assert(!word_at(s, pos, "true"@)) by {
                if word_at(s, pos, "true"@) {
                    lemma_word_chars(s, pos, "true"@);
                    assert(s[pos + 0] == "true"@[0]);
                }
            }
            assert(!word_at(s, pos, "false"@)) by {
                if word_at(s, pos, "false"@) {
                    lemma_word_chars(s, pos, "false"@);
                    assert(s[pos + 0] == "false"@[0]);
                }
            }
        },
        ValueView::Text(t) => {
            lemma_word_split(s, pos, "\""@ + t, "\""@);
            lemma_word_split(s, pos, "\""@, t);
            lemma_word_chars(s, pos, "\""@);
            assert(s[pos + 0] == "\""@[0]);
            lemma_word_chars(s, pos + 1 + t.len(), "\""@);
            assert(s[pos + 1 + t.len() + 0] == "\""@[0]);
            lemma_string_read_back(s, pos + 1, t);
        },
        ValueView::Table(_) => {},
    }
}

/// A key is read back from its text, up to the place where the value starts.
proof fn lemma_key_read_back(s: Seq<char>, pos: int, key: Option<Seq<char>>)
    requires
        plain_key(key),
        word_at(s, pos, key_text(key)),
        pos + key_text(key).len() < s.len(),
        starts_value(s[pos + key_text(key).len()]),
    ensures
        key_at(s, pos) == Some((key, pos + key_text(key).len())),
        s[pos] != '}',
        !is_space(s[pos]),
{
    lemma_pieces();
    match key {
        Some(name) => {
            let open = "[\""@;
            let close = "\"] = "@;
            lemma_word_split(s, pos, open + name, close);
            lemma_word_split(s, pos, open, name);
            lemma_word_chars(s, pos, open);
            assert(s[pos + 0] == open[0]);
            assert(s[pos + 1] == open[1]);
            let after = pos + 2 + name.len();
            lemma_word_chars(s, after, close);
            assert(s[after + 0] == close[0]);
            assert(s[after + 1] == close[1]);
            assert(s[after + 2] == close[2]);
            assert(s[after + 3] == close[3]);
            assert(s[after + 4] == close[4]);
            lemma_string_read_back(s, pos + 2, name);
            assert(skip_spaces(s, pos + 1) == pos + 1);
            assert(skip_spaces(s, after + 1) == after + 1);
            lemma_skip_to(s, after + 2, after + 3);
            lemma_skip_to(s, after + 4, after + 5);
        },
        None => {
            assert(key_text(key) =~= Seq::<char>::empty());
        },
    }
}

/// The lines of the first fields stand where the lines of more fields stand.
proof fn lemma_lines_prefix(
    s: Seq<char>,
    base: int,
    fields: Seq<FieldView>,
    level: nat,
    j: nat,
    n: nat,
)
    requires
        j <= n <= fields.len(),
        word_at(s, base, fields_text(fields, level, n)),
    ensures
        word_at(s, base, fields_text(fields, level, j)),
        fields_text(fields, level, j).len() <= fields_text(fields, level, n).len(),
    decreases n - j,
{
    if j < n {
        let before = fields_text(fields, level, (n - 1) as nat);
        let field = fields[n - 1];
        lemma_word_split(
            s,
            base,
            before + indent_text(level) + key_text(field.key) + value_text(field.value, level),
            ",\n"@,
        );
        lemma_word_split(
            s,
            base,
            before + indent_text(level) + key_text(field.key),
            value_text(field.value, level),
        );
        lemma_word_split(s, base, before + indent_text(level), key_text(field.key));
        lemma_word_split(s, base, before, indent_text(level));
        lemma_lines_prefix(s, base, fields, level, j, (n - 1) as nat);
    }
}

/// The pieces of the line of field `j`, one behind the other.
proof fn lemma_line_parts(s: Seq<char>, base: int, fields: Seq<FieldView>, level: nat, j: nat)
    requires
        j < fields.len(),
        word_at(s, base, fields_text(fields, level, j + 1)),
    ensures
        ({
            let line = base + fields_text(fields, level, j).len();
            let key = line + 2 * level;
            let value = key + key_text(fields[j as int].key).len();
            let end = value + value_text(fields[j as int].value, level).len();
            &&& word_at(s, base, fields_text(fields, level, j))
            &&& forall|i: int| line <= i < key ==> (#[trigger] s[i]) == ' '
            &&& 0 <= line
            &&& word_at(s, key, key_text(fields[j as int].key))
            &&& word_at(s, value, value_text(fields[j as int].value, level))
            &&& end + 2 <= s.len()
            &&& s[end] == ','
            &&& s[end + 1] == '\n'
            &&& base + fields_text(fields, level, j + 1).len() == end + 2
        }),
{
    lemma_pieces();
    lemma_indent(level);
    let before = fields_text(fields, level, j);
    let field = fields[j as int];
    lemma_word_split(
        s,
        base,
        before + indent_text(level) + key_text(field.key) + value_text(field.value, level),
        ",\n"@,
    );
    lemma_word_split(
        s,
        base,
        before + indent_text(level) + key_text(field.key),
        value_text(field.value, level),
    );
    lemma_word_split(s, base, before + indent_text(level), key_text(field.key));
    lemma_word_split(s, base, before, indent_text(level));
    let line = base + before.len();
    let key = line + 2 * level;
    let value = key + key_text(field.key).len();
    let end = value + value_text(field.value, level).len();
    lemma_word_chars(s, line, indent_text(level));
    assert forall|i: int| line <= i < key implies (#[trigger] s[i]) == ' ' by {
        assert(s[line + (i - line)] == indent_text(level)[i - line]);
    }
    lemma_word_chars(s, end, ",\n"@);
    assert(s[end + 0] == ",\n"@[0]);
    assert(s[end + 1] == ",\n"@[1]);
}

/// The first values of a one-line table stand where more of them stand.
proof fn lemma_inline_prefix(s: Seq<char>, base: int, fields: Seq<FieldView>, j: nat, n: nat)
    requires
        1 <= j <= n <= fields.len(),
        word_at(s, base, inline_text(fields, n)),
    ensures
        word_at(s, base, inline_text(fields, j)),
        inline_text(fields, j).len() <= inline_text(fields, n).len(),
    decreases n - j,
{
    if j < n {
        let before = inline_text(fields, (n - 1) as nat);
        lemma_word_split(s, base, before + ", "@, scalar_text(fields[n - 1].value));
        lemma_word_split(s, base, before, ", "@);
        lemma_inline_prefix(s, base, fields, j, (n - 1) as nat);
    }
}

/// Where value `j` of a one-line table starts.
pub open spec fn inline_start(base: int, fields: Seq<FieldView>, j: nat) -> int {
    if j == 0 {
        base
    } else {
        base + inline_text(fields, j).len() + 2
    }
}

/// The place of value `j` of a one-line table, and what stands before it.
proof fn lemma_inline_parts(s: Seq<char>, base: int, fields: Seq<FieldView>, j: nat)
    requires
        j < fields.len(),
        word_at(s, base, inline_text(fields, j + 1)),
    ensures
        word_at(s, inline_start(base, fields, j), scalar_text(fields[j as int].value)),
        base + inline_text(fields, j + 1).len() == inline_start(base, fields, j) + scalar_text(
            fields[j as int].value,
        ).len(),
        j > 0 ==> s[base + inline_text(fields, j).len()] == ',' && s[base + inline_text(
            fields,
            j,
        ).len() + 1] == ' ' && 0 <= base + inline_text(fields, j).len(),
{
    lemma_pieces();
    if j > 0 {
        let before = inline_text(fields, j);
        lemma_word_split(s, base, before + ", "@, scalar_text(fields[j as int].value));
        lemma_word_split(s, base, before, ", "@);
        lemma_word_chars(s, base + before.len(), ", "@);
        assert(s[base + before.len() + 0] == ", "@[0]);
        assert(s[base + before.len() + 1] == ", "@[1]);
    }
}

/// The values of a one-line table from value `j` on are read back.
proof fn lemma_inline_read_back(
    s: Seq<char>,
    base: int,
    fields: Seq<FieldView>,
    depth: nat,
    j: nat,
)
    requires
        is_inline(fields),
        j < fields.len(),
        forall|i: int| 0 <= i < fields.len() ==> plain_value((#[trigger] fields[i]).value, depth),
        word_at(s, base, inline_text(fields, fields.len()) + " }"@),
    ensures
        fields_at(s, inline_start(base, fields, j), depth) == Some(
            (
                fields.subrange(j as int, fields.len() as int),
                base + inline_text(fields, fields.len()).len() + 2,
            ),
        ),
    decreases fields.len() - j,
{
    lemma_pieces();
    let n = fields.len();
    let whole = inline_text(fields, n);
    lemma_word_split(s, base, whole, " }"@);
    lemma_word_chars(s, base + whole.len(), " }"@);
    assert(s[base + whole.len() + 0] == " }"@[0]);
    assert(s[base + whole.len() + 1] == " }"@[1]);
    lemma_inline_prefix(s, base, fields, j + 1, n);
    lemma_inline_parts(s, base, fields, j);
    let start = inline_start(base, fields, j);
    let field = fields[j as int];
    let text = scalar_text(field.value);
    let after = start + text.len();
    assert(value_text(field.value, 0) == text);
    lemma_value_starts(s, start, field.value, 0);
    assert(key_at(s, start) == Some((None::<Seq<char>>, start)));
    if j + 1 < n {
        lemma_inline_prefix(s, base, fields, j + 2, n);
        lemma_inline_parts(s, base, fields, j + 1);
        let next = inline_start(base, fields, j + 1);
        assert(next == after + 2);
        lemma_value_starts(s, next, fields[j as int + 1].value, 0);
        lemma_scalar_read_back(s, start, field.value, depth);
        assert(skip_spaces(s, after) == after);
        lemma_skip_to(s, after + 1, next);
        lemma_inline_read_back(s, base, fields, depth, j + 1);
        assert(seq![field] + fields.subrange(j as int + 1, n as int) =~= fields.subrange(
            j as int,
            n as int,
        ));
    } else {
        assert(after == base + whole.len());
        lemma_scalar_read_back(s, start, field.value, depth);
        lemma_skip_to(s, after, after + 1);
        assert(seq![field] =~= fields.subrange(j as int, n as int));
    }
}

/// Where the text of field `j` of a table of lines starts behind its indentation, or
/// where the closing brace stands for `j` the number of fields.
pub open spec fn line_start(base: int, fields: Seq<FieldView>, level: nat, j: nat) -> int {
    if j < fields.len() {
        base + fields_text(fields, level + 1, j).len() + 2 * (level + 1)
    } else {
        base + fields_text(fields, level + 1, j).len() + 2 * level
    }
}

/// A value is read back from its text.
proof fn lemma_value_read_back(s: Seq<char>, pos: int, v: ValueView, level: nat, depth: nat)
    requires
        plain_value(v, depth),
        word_at(s, pos, value_text(v, level)),
        v is Number && pos + value_text(v, level).len() < s.len() ==> !is_digit(
            s[pos + value_text(v, level).len()],
        ),
    ensures
        value_at(s, pos, depth) == Some((v, pos + value_text(v, level).len())),
    decreases v, 0nat, 0nat,
{
    lemma_pieces();
    match v {
        ValueView::Table(fields) => {
            let n = fields.len();
            lemma_value_starts(s, pos, v, level);
            if is_inline(fields) {
                let whole = inline_text(fields, n);
                lemma_word_split(s, pos, "{ "@ + whole, " }"@);
                lemma_word_split(s, pos, "{ "@, whole);
                lemma_word_split(s, pos + 2, whole, " }"@);
                lemma_word_chars(s, pos, "{ "@);
                assert(s[pos + 0] == "{ "@[0]);
                assert(s[pos + 1] == "{ "@[1]);
                lemma_inline_prefix(s, pos + 2, fields, 1, n);
                lemma_inline_parts(s, pos + 2, fields, 0);
                assert(value_text(fields[0].value, 0) == scalar_text(fields[0].value));
                lemma_value_starts(s, pos + 2, fields[0].value, 0);
                lemma_skip_to(s, pos + 1, pos + 2);
                lemma_inline_read_back(s, pos + 2, fields, (depth - 1) as nat, 0);
                assert(fields.subrange(0, n as int) =~= fields);
            } else {
                let body = fields_text(fields, level + 1, n);
                lemma_word_split(s, pos, "{\n"@ + body + indent_text(level), "}"@);
                lemma_word_split(s, pos, "{\n"@ + body, indent_text(level));
                lemma_word_split(s, pos, "{\n"@, body);
                lemma_word_split(s, pos + 2 + body.len(), indent_text(level), "}"@);
                lemma_word_split(s, pos + 2, body, indent_text(level) + "}"@);
                lemma_word_chars(s, pos, "{\n"@);
                assert(s[pos + 0] == "{\n"@[0]);
                assert(s[pos + 1] == "{\n"@[1]);
                lemma_lines_read_back(s, pos + 2, fields, level, (depth - 1) as nat, 0);
                lemma_line_reached(s, pos + 2, fields, level, 0);
                assert(fields_text(fields, level + 1, 0).len() == 0);
                lemma_skip_to(s, pos + 1, line_start(pos + 2, fields, level, 0));
                assert(fields.subrange(0, n as int) =~= fields);
                lemma_indent(level);
            }
        },
        _ => {
            lemma_scalar_read_back(s, pos, v, depth);
        },
    }
}

/// The place where field `j` starts holds no space, and before it, from the start of
/// its line on, there are only spaces.
proof fn lemma_line_reached(s: Seq<char>, base: int, fields: Seq<FieldView>, level: nat, j: nat)
    requires
        j <= fields.len(),
        word_at(
            s,
            base,
            fields_text(fields, level + 1, fields.len()) + (indent_text(level) + "}"@),
        ),
    ensures
        ({
            let line = base + fields_text(fields, level + 1, j).len();
            let start = line_start(base, fields, level, j);
            &&& 0 <= line <= start < s.len()
            &&& forall|i: int| line <= i < start ==> (#[trigger] s[i]) == ' '
            &&& !is_space(s[start])
            &&& j == fields.len() ==> s[start] == '}' && start + 1 == base + fields_text(
                fields,
                level + 1,
                fields.len(),
            ).len() + 2 * level + 1
        }),
{
    lemma_pieces();
    lemma_indent(level);
    let n = fields.len();
    let body = fields_text(fields, level + 1, n);
    lemma_word_split(s, base, body, indent_text(level) + "}"@);
    if j < n {
        lemma_lines_prefix(s, base, fields, level + 1, j + 1, n);
        lemma_line_parts(s, base, fields, level + 1, j);
        let start = line_start(base, fields, level, j);
        let key = fields[j as int].key;
        let value_from = start + key_text(key).len();
        lemma_value_starts(s, value_from, fields[j as int].value, level + 1);
        if key is Some {
            lemma_word_split(s, start, "[\""@ + key->0, "\"] = "@);
            lemma_word_split(s, start, "[\""@, key->0);
            lemma_word_chars(s, start, "[\""@);
            assert(s[start + 0] == "[\""@[0]);
        } else {
            assert(key_text(key) =~= Seq::<char>::empty());
        }
    } else {
        let line = base + body.len();
        lemma_word_split(s, line, indent_text(level), "}"@);
        lemma_word_chars(s, line, indent_text(level));
        assert forall|i: int| line <= i < line + 2 * level implies (#[trigger] s[i]) == ' ' by {
            assert(s[line + (i - line)] == indent_text(level)[i - line]);
        }
        lemma_word_chars(s, line + 2 * level, "}"@);
        assert(s[line + 2 * level + 0] == "}"@[0]);
    }
}

/// The fields of a table of lines from field `j` on are read back.
proof fn lemma_lines_read_back(
    s: Seq<char>,
    base: int,
    fields: Seq<FieldView>,
    level: nat,
    depth: nat,
    j: nat,
)
    requires
        j <= fields.len(),
        forall|i: int|
            0 <= i < fields.len() ==> plain_key((#[trigger] fields[i]).key) && plain_value(
                fields[i].value,
                depth,
            ),
        word_at(
            s,
            base,
            fields_text(fields, level + 1, fields.len()) + (indent_text(level) + "}"@),
        ),
    ensures
        fields_at(s, line_start(base, fields, level, j), depth) == Some(
            (
                fields.subrange(j as int, fields.len() as int),
                base + fields_text(fields, level + 1, fields.len()).len() + 2 * level + 1,
            ),
        ),
    decreases fields, 1nat, fields.len() - j,
{
    let n = fields.len();
    let body = fields_text(fields, level + 1, n);
    let start = line_start(base, fields, level, j);
    lemma_line_reached(s, base, fields, level, j);
    if j == n {
        assert(fields.subrange(j as int, n as int) =~= Seq::<FieldView>::empty());
    } else {
        let field = fields[j as int];
        lemma_word_split(s, base, body, indent_text(level) + "}"@);
        lemma_lines_prefix(s, base, fields, level + 1, j + 1, n);
        lemma_line_parts(s, base, fields, level + 1, j);
        let value_from = start + key_text(field.key).len();
        let after = value_from + value_text(field.value, level + 1).len();
        lemma_value_starts(s, value_from, field.value, level + 1);
        lemma_key_read_back(s, start, field.key);
        lemma_value_read_back(s, value_from, field.value, level + 1, depth);
        lemma_line_reached(s, base, fields, level, j + 1);
        let next = line_start(base, fields, level, j + 1);
        assert(skip_spaces(s, after) == after);
        lemma_skip_to(s, after + 1, next);
        lemma_lines_read_back(s, base, fields, level, depth, j + 1);
        assert(seq![field] + fields.subrange(j as int + 1, n as int) =~= fields.subrange(
            j as int,
            n as int,
        ));
    }
}

/// What is written of a table is read back as that table, where its strings and
/// keys are plain and its tables nested no deeper than `MAX_DEPTH`.
pub proof fn lemma_written_is_read_back(v: ValueView)
    requires
        v is Table,
        plain_value(v, MAX_DEPTH as nat),
    ensures
        document_at(document_text(v)) == Some(v),
{
    let s = document_text(v);
    assert(s.subrange(0, s.len() as int) =~= s);
    lemma_value_starts(s, 0, v, 0);
    lemma_value_read_back(s, 0, v, 0, MAX_DEPTH as nat);
}

} // verus!
