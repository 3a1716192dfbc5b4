//! Reading a table literal into a value tree.
//!
//! The grammar is the one that `render` writes, read with some slack: spaces, tabs and
//! line breaks may stand between any two tokens, `;` may stand for `,`, the separator
//! after a table's last field may be left out, and a string may hold the escapes
//! `\\`, `\"`, `\'`, `\n`, `\t` and `\r`.

use vstd::prelude::*;
use crate::text::chars_of;
use crate::time::Time;
use crate::value::{fields_view, key_view, lemma_table_view, Field, FieldView, Value, ValueView};

verus! {

/// How deep tables may be nested in a text that is read.
pub const MAX_DEPTH: usize = 32;

/// The greatest number of whole seconds whose thousandths can still fit.
pub const WHOLE_LIMIT: u64 = 9_223_372_036_854_775;

/// A space, a tab or a line break.
pub open spec fn is_space(c: char) -> bool {
    c == ' ' || c == '\t' || c == '\n' || c == '\r'
}

/// One of the characters `0` to `9`.
pub open spec fn is_digit(c: char) -> bool {
    48 <= c as u32 <= 57
}

/// The number that a digit's character stands for.
pub open spec fn digit_value(c: char) -> nat {
    (c as u32 - 48) as nat
}

/// The first place at or behind `pos` that holds no space, tab or line break.
pub open spec fn skip_spaces(s: Seq<char>, pos: int) -> int
    decreases s.len() - pos,
{
    if 0 <= pos < s.len() && is_space(s[pos]) {
        skip_spaces(s, pos + 1)
    } else {
        pos
    }
}

/// The first place at or behind `pos` that holds no digit.
pub open spec fn digits_end(s: Seq<char>, pos: int) -> int
    decreases s.len() - pos,
{
    if 0 <= pos < s.len() && is_digit(s[pos]) {
        digits_end(s, pos + 1)
    } else {
        pos
    }
}

/// The number that the digits from `from` up to `to` write.
pub open spec fn digits_value(s: Seq<char>, from: int, to: int) -> nat
    decreases to - from,
{
    if to <= from {
        0
    } else {
        digits_value(s, from, to - 1) * 10 + digit_value(s[to - 1])
    }
}

/// The digit at place `k` behind the point, 0 where the digits have ended.
pub open spec fn fraction_digit(s: Seq<char>, from: int, to: int, k: int) -> nat {
    if from + k < to {
        digit_value(s[from + k])
    } else {
        0
    }
}

/// The thousandths that the digits behind the point stand for, from `from` up to
/// `to`: the first three digits, and one more where the fourth is 5 or greater.
pub open spec fn fraction_millis(s: Seq<char>, from: int, to: int) -> nat {
    fraction_digit(s, from, to, 0) * 100 + fraction_digit(s, from, to, 1) * 10 + fraction_digit(
        s,
        from,
        to,
        2,
    ) + if fraction_digit(s, from, to, 3) >= 5 {
        1nat
    } else {
        0nat
    }
}

/// The number that starts at `pos`, and the place behind it: an optional minus sign,
/// digits, and optionally a point with digits behind it. There is none where no digit
/// stands there, or where the thousandths do not fit in 64 bits.
pub open spec fn number_at(s: Seq<char>, pos: int) -> Option<(Time, int)> {
    let negative = 0 <= pos < s.len() && s[pos] == '-';
    let start = if negative {
        pos + 1
    } else {
        pos
    };
    let whole_end = digits_end(s, start);
    let has_point = 0 <= whole_end < s.len() && s[whole_end] == '.';
    let end = if has_point {
        digits_end(s, whole_end + 1)
    } else {
        whole_end
    };
    let fraction = if has_point {
        fraction_millis(s, whole_end + 1, end)
    } else {
        0
    };
    let size = digits_value(s, start, whole_end) * 1000 + fraction;
    let millis = if negative {
        -size
    } else {
        size as int
    };
    if whole_end == start || millis < i64::MIN || millis > i64::MAX {
        None
    } else {
        Some((Time { millis: millis as i64 }, end))
    }
}

/// The character that stands for an escape's second character.
pub open spec fn unescaped(c: char) -> Option<char> {
    if c == 'n' {
        Some('\n')
    } else if c == 't' {
        Some('\t')
    } else if c == 'r' {
        Some('\r')
    } else if c == '\\' || c == '"' || c == '\'' {
        Some(c)
    } else {
        None
    }
}

/// Joins what was read so far with what the rest gives.
pub open spec fn after_text(head: Seq<char>, rest: Option<(Seq<char>, int)>) -> Option<
    (Seq<char>, int),
> {
    match rest {
        Some((tail, end)) => Some((head + tail, end)),
        None => None,
    }
}

/// The rest of a string whose opening quote stands before `pos`, and the place behind
/// its closing quote. A line break or an unknown escape inside it makes it none.
pub open spec fn string_at(s: Seq<char>, pos: int) -> Option<(Seq<char>, int)>
    decreases s.len() - pos,
{
    if pos < 0 || pos >= s.len() {
        None
    } else if s[pos] == '"' {
        Some((Seq::empty(), pos + 1))
    } else if s[pos] == '\n' {
        None
    } else if s[pos] == '\\' {
        if pos + 1 < s.len() && unescaped(s[pos + 1]) is Some {
            after_text(seq![unescaped(s[pos + 1])->0], string_at(s, pos + 2))
        } else {
            None
        }
    } else {
        after_text(seq![s[pos]], string_at(s, pos + 1))
    }
}

/// Whether `word` stands at `pos`.
pub open spec fn word_at(s: Seq<char>, pos: int, word: Seq<char>) -> bool {
    0 <= pos && pos + word.len() <= s.len() && s.subrange(pos, pos + word.len()) == word
}

/// The key that starts at `pos`, and the place where the field's value starts:
/// `["name"] =` gives the name, anything else no key and the same place.
pub open spec fn key_at(s: Seq<char>, pos: int) -> Option<(Option<Seq<char>>, int)> {
    if 0 <= pos < s.len() && s[pos] == '[' {
        let quote = skip_spaces(s, pos + 1);
        if quote < s.len() && s[quote] == '"' {
            match string_at(s, quote + 1) {
                Some((name, after)) => {
                    let close = skip_spaces(s, after);
                    let equals = skip_spaces(s, close + 1);
                    if close < s.len() && s[close] == ']' && equals < s.len() && s[equals] == '=' {
                        Some((Some(name), skip_spaces(s, equals + 1)))
                    } else {
                        None
                    }
                },
                None => None,
            }
        } else {
            None
        }
    } else {
        Some((None, pos))
    }
}

/// Joins the fields read so far with what the rest of the table gives.
pub open spec fn after_fields(head: Seq<FieldView>, rest: Option<(Seq<FieldView>, int)>) -> Option<
    (Seq<FieldView>, int),
> {
    match rest {
        Some((tail, end)) => Some((head + tail, end)),
        None => None,
    }
}

/// The value that starts at `pos`, and the place behind it. `depth` is how deep
/// tables may still be nested.
pub open spec fn value_at(s: Seq<char>, pos: int, depth: nat) -> Option<(ValueView, int)>
    decreases depth, 0nat, 0nat,
{
    if pos < 0 || pos >= s.len() {
        None
    } else if s[pos] == '{' {
        if depth == 0 {
            None
        } else {
            match fields_at(s, skip_spaces(s, pos + 1), (depth - 1) as nat) {
                Some((fields, end)) => Some((ValueView::Table(fields), end)),
                None => None,
            }
        }
    } else if s[pos] == '"' {
        match string_at(s, pos + 1) {
            Some((text, end)) => Some((ValueView::Text(text), end)),
            None => None,
        }
    } else if word_at(s, pos, "true"@) {
        Some((ValueView::Bool(true), pos + "true"@.len()))
    } else if word_at(s, pos, "false"@) {
        Some((ValueView::Bool(false), pos + "false"@.len()))
    } else {
        match number_at(s, pos) {
            Some((time, end)) => Some((ValueView::Number(time), end)),
            None => None,
        }
    }
}

/// The fields of a table from `pos` on, which holds no space, up to the closing
/// brace, and the place behind that brace.
pub open spec fn fields_at(s: Seq<char>, pos: int, depth: nat) -> Option<(Seq<FieldView>, int)>
    decreases depth, 1nat, s.len() - pos,
{
    if pos < 0 || pos >= s.len() {
        None
    } else if s[pos] == '}' {
        Some((Seq::empty(), pos + 1))
    } else {
        match key_at(s, pos) {
            Some((key, start)) => match value_at(s, start, depth) {
                Some((value, after)) => {
                    let mark = skip_spaces(s, after);
                    let next = skip_spaces(s, mark + 1);
                    let field = FieldView { key, value };
                    if mark < 0 || mark >= s.len() {
                        None
                    } else if s[mark] == '}' {
                        Some((seq![field], mark + 1))
                    } else if (s[mark] == ',' || s[mark] == ';') && pos < next <= s.len() {
                        after_fields(seq![field], fields_at(s, next, depth))
                    } else {
                        None
                    }
                },
                None => None,
            },
            None => None,
        }
    }
}

/// The table that a text writes: one table literal with nothing but spaces around it.
/// Any other text, a value that is no table among them, gives none.
pub open spec fn document_at(s: Seq<char>) -> Option<ValueView> {
    match value_at(s, skip_spaces(s, 0), MAX_DEPTH as nat) {
        Some((value, end)) => if value is Table && skip_spaces(s, end) == s.len() {
            Some(value)
        } else {
            None
        },
        None => None,
    }
}

fn space(c: char) -> (b: bool)
    ensures
        b == is_space(c),
{
    c == ' ' || c == '\t' || c == '\n' || c == '\r'
}

fn digit_of(c: char) -> (d: Option<u64>)
    ensures
        d is Some == is_digit(c),
        d matches Some(v) ==> v == digit_value(c) && v <= 9,
{
    let code = c as u32;
    if 48 <= code && code <= 57 {
        Some((code - 48) as u64)
    } else {
        None
    }
}

fn skip(s: &Vec<char>, pos: usize) -> (end: usize)
    requires
        pos <= s.len(),
    ensures
        end == skip_spaces(s@, pos as int),
        pos <= end <= s.len(),
{
    let mut at = pos;
    while at < s.len() && space(s[at])
        invariant
            pos <= at <= s.len(),
            skip_spaces(s@, pos as int) == skip_spaces(s@, at as int),
        decreases s.len() - at,
    {
        at += 1;
    }
    at
}

fn has_word(s: &Vec<char>, pos: usize, word: &str) -> (b: bool)
    requires
        pos <= s.len(),
    ensures
        b == word_at(s@, pos as int, word@),
{
    let w = chars_of(word);
    if w.len() > s.len() - pos {
        return false;
    }
    let mut i: usize = 0;
    while i < w.len()
        invariant
            i <= w.len(),
            w@ == word@,
            pos + w.len() <= s.len(),
            s@.subrange(pos as int, pos + i) == w@.take(i as int),
        decreases w.len() - i,
    {
        if s[pos + i] != w[i] {
            assert(s@.subrange(pos as int, pos + w.len())[i as int] != w@[i as int]);
            return false;
        }
        i += 1;
        assert(s@.subrange(pos as int, pos + i) =~= s@.subrange(pos as int, pos + i - 1).push(
            s@[pos + i - 1],
        ));
        assert(w@.take(i as int) =~= w@.take(i - 1).push(w@[i - 1]));
    }
    assert(w@.take(w.len() as int) =~= w@);
    true
}

proof fn lemma_digits_value_grows(s: Seq<char>, from: int, to: int, more: int)
    requires
        from <= to <= more,
    ensures
        digits_value(s, from, to) <= digits_value(s, from, more),
    decreases more - to,
{
    if to < more {
        lemma_digits_value_grows(s, from, to, more - 1);
    }
}

fn read_number(s: &Vec<char>, pos: usize) -> (r: Option<(Time, usize)>)
    requires
        pos <= s.len(),
    ensures
        match r {
            Some((time, end)) => number_at(s@, pos as int) == Some((time, end as int)) && pos < end
                <= s.len(),
            None => number_at(s@, pos as int) is None,
        },
{
    let negative = pos < s.len() && s[pos] == '-';
    let start = if negative {
        pos + 1
    } else {
        pos
    };
    let mut at = start;
    let mut whole: u64 = 0;
    let mut too_big = false;
    loop
        invariant
            start <= at <= s.len(),
            digits_end(s@, start as int) == digits_end(s@, at as int),
            !too_big ==> whole == digits_value(s@, start as int, at as int) && whole <= WHOLE_LIMIT,
            too_big ==> digits_value(s@, start as int, at as int) > WHOLE_LIMIT,
        ensures
            start <= at <= s.len(),
            at == digits_end(s@, start as int),
            !too_big ==> whole == digits_value(s@, start as int, at as int) && whole <= WHOLE_LIMIT,
            too_big ==> digits_value(s@, start as int, at as int) > WHOLE_LIMIT,
        decreases s.len() - at,
    {
        if at >= s.len() {
            break ;
        }
        match digit_of(s[at]) {
            Some(d) => {
                if !too_big {
                    whole = whole * 10 + d;
                    if whole > WHOLE_LIMIT {
                        too_big = true;
                    }
                } else {
                    proof {
                        lemma_digits_value_grows(s@, start as int, at as int, at + 1);
                    }
                }
                at += 1;
            },
            None => {
                break ;
            },
        }
    }
    if at == start {
        return None;
    }
    let whole_end = at;
    let has_point = at < s.len() && s[at] == '.';
    let mut fraction: u64 = 0;
    if has_point {
        at += 1;
        let from = at;
        loop
            invariant
                from == whole_end + 1,
                from <= at <= s.len(),
                digits_end(s@, from as int) == digits_end(s@, at as int),
                fraction == fraction_millis(s@, from as int, at as int),
                forall|k: int| from <= k < at ==> is_digit(#[trigger] s@[k]),
                fraction <= 1000,
            ensures
                from <= at <= s.len(),
                at == digits_end(s@, from as int),
                fraction == fraction_millis(s@, from as int, at as int),
                fraction <= 1000,
            decreases s.len() - at,
        {
            if at >= s.len() {
                break ;
            }
            match digit_of(s[at]) {
                Some(d) => {
                    let place = at - from;
                    if place == 0 {
                        fraction = fraction + d * 100;
                    } else if place == 1 {
                        fraction = fraction + d * 10;
                    } else if place == 2 {
                        fraction = fraction + d;
                    } else if place == 3 && d >= 5 {
                        fraction = fraction + 1;
                    }
                    at += 1;
                },
                None => {
                    break ;
                },
            }
        }
    }
    if too_big {
        return None;
    }
    let size: u64 = whole * 1000 + fraction;
    if negative {
        if size > 9_223_372_036_854_775_808 {
            None
        } else if size == 9_223_372_036_854_775_808 {
            Some((Time { millis: i64::MIN }, at))
        } else {
            Some((Time { millis: -(size as i64) }, at))
        }
    } else {
        if size > 9_223_372_036_854_775_807 {
            None
        } else {
            Some((Time { millis: size as i64 }, at))
        }
    }
}

fn unescape(c: char) -> (r: Option<char>)
    ensures
        r == unescaped(c),
{
    if c == 'n' {
        Some('\n')
    } else if c == 't' {
        Some('\t')
    } else if c == 'r' {
        Some('\r')
    } else if c == '\\' || c == '"' || c == '\'' {
        Some(c)
    } else {
        None
    }
}

fn read_string(s: &Vec<char>, pos: usize) -> (r: Option<(String, usize)>)
    requires
        pos <= s.len(),
    ensures
        match r {
            Some((text, end)) => string_at(s@, pos as int) == Some((text@, end as int)) && pos < end
                <= s.len(),
            None => string_at(s@, pos as int) is None,
        },
{
    let mut text = String::new();
    let mut at = pos;
    loop
        invariant
            pos <= at <= s.len(),
            string_at(s@, pos as int) == after_text(text@, string_at(s@, at as int)),
        decreases s.len() - at,
    {
        if at >= s.len() {
            return None;
        }
        let c = s[at];
        if c == '"' {
            assert(text@ + Seq::<char>::empty() =~= text@);
            return Some((text, at + 1));
        } else if c == '\n' {
            return None;
        } else if c == '\\' {
            if at + 1 >= s.len() {
                return None;
            }
            match unescape(s[at + 1]) {
                Some(plain) => {
                    let ghost before = text@;
                    text.push(plain);
                    proof {
                        let rest = string_at(s@, at + 2);
                        if rest is Some {
                            assert(before + (seq![plain] + rest.unwrap().0) =~= text@ + rest.unwrap().0);
                        }
                    }
                    at += 2;
                },
                None => {
                    return None;
                },
            }
        } else {
            let ghost before = text@;
            text.push(c);
            proof {
                let rest = string_at(s@, at + 1);
                if rest is Some {
                    assert(before + (seq![c] + rest.unwrap().0) =~= text@ + rest.unwrap().0);
                }
            }
            at += 1;
        }
    }
}

fn read_key(s: &Vec<char>, pos: usize) -> (r: Option<(Option<String>, usize)>)
    requires
        pos < s.len(),
    ensures
        match r {
            Some((key, start)) => key_at(s@, pos as int) == Some((key_view(key), start as int))
                && pos <= start <= s.len() && (key is Some ==> pos < start),
            None => key_at(s@, pos as int) is None,
        },
{
    if s[pos] != '[' {
        return Some((None, pos));
    }
    let quote = skip(s, pos + 1);
    if quote >= s.len() || s[quote] != '"' {
        return None;
    }
    match read_string(s, quote + 1) {
        Some((name, after)) => {
            let close = skip(s, after);
            if close >= s.len() || s[close] != ']' {
                return None;
            }
            let equals = skip(s, close + 1);
            if equals >= s.len() || s[equals] != '=' {
                return None;
            }
            let start = skip(s, equals + 1);
            Some((Some(name), start))
        },
        None => None,
    }
}

fn read_value(s: &Vec<char>, pos: usize, depth: usize) -> (r: Option<(Value, usize)>)
    requires
        pos <= s.len(),
    ensures
        match r {
            Some((value, end)) => value_at(s@, pos as int, depth as nat) == Some(
                (value@, end as int),
            ) && pos < end <= s.len(),
            None => value_at(s@, pos as int, depth as nat) is None,
        },
    decreases depth, 0nat,
{
    if pos >= s.len() {
        return None;
    }
    let c = s[pos];
    if c == '{' {
        if depth == 0 {
            return None;
        }
        let start = skip(s, pos + 1);
        match read_fields(s, start, depth - 1) {
            Some((fields, end)) => {
                proof {
                    lemma_table_view(fields);
                }
                Some((Value::Table(fields), end))
            },
            None => None,
        }
    } else if c == '"' {
        match read_string(s, pos + 1) {
            Some((text, end)) => Some((Value::Text(text), end)),
            None => None,
        }
    } else if has_word(s, pos, "true") {
        proof {
            reveal_strlit("true");
        }
        Some((Value::Bool(true), pos + 4))
    } else if has_word(s, pos, "false") {
        proof {
            reveal_strlit("false");
        }
        Some((Value::Bool(false), pos + 5))
    } else {
        match read_number(s, pos) {
            Some((time, end)) => Some((Value::Number(time), end)),
            None => None,
        }
    }
}

fn read_fields(s: &Vec<char>, start: usize, depth: usize) -> (r: Option<(Vec<Field>, usize)>)
    requires
        start <= s.len(),
    ensures
        match r {
            Some((fields, end)) => fields_at(s@, start as int, depth as nat) == Some(
                (fields_view(fields@), end as int),
            ) && start < end <= s.len(),
            None => fields_at(s@, start as int, depth as nat) is None,
        },
    decreases depth, 1nat,
{
    let mut fields: Vec<Field> = Vec::new();
    let mut pos = start;
    assert(fields_view(fields@) =~= Seq::<FieldView>::empty());
    loop
        invariant
            start <= pos <= s.len(),
            fields_at(s@, start as int, depth as nat) == after_fields(
                fields_view(fields@),
                fields_at(s@, pos as int, depth as nat),
            ),
        decreases s.len() - pos,
    {
        if pos >= s.len() {
            return None;
        }
        if s[pos] == '}' {
            assert(fields_view(fields@) + Seq::<FieldView>::empty() =~= fields_view(fields@));
            return Some((fields, pos + 1));
        }
        let (key, value_start) = match read_key(s, pos) {
            Some(found) => found,
            None => {
                return None;
            },
        };
        let (value, after) = match read_value(s, value_start, depth) {
            Some(found) => found,
            None => {
                return None;
            },
        };
        let mark = skip(s, after);
        if mark >= s.len() {
            return None;
        }
        let field = Field { key, value };
        let ghost before = fields_view(fields@);
        if s[mark] == '}' {
            fields.push(field);
            assert(fields_view(fields@) =~= before + seq![field@]);
            return Some((fields, mark + 1));
        } else if s[mark] == ',' || s[mark] == ';' {
            let next = skip(s, mark + 1);
            fields.push(field);
            proof {
                assert(fields_view(fields@) =~= before + seq![field@]);
                let rest = fields_at(s@, next as int, depth as nat);
                if rest is Some {
                    assert(before + (seq![field@] + rest.unwrap().0) =~= fields_view(fields@)
                        + rest.unwrap().0);
                }
            }
            pos = next;
        } else {
            return None;
        }
    }
}

/// Reads a text as one table literal. Gives the table, or none where the text is
/// anything else: a syntax error, a value that is no table, tables nested deeper
/// than `MAX_DEPTH`, a number too large, or anything but spaces behind the table.
pub fn parse(text: &str) -> (r: Option<Value>)
    ensures
        match r {
            Some(value) => document_at(text@) == Some(value@),
            None => document_at(text@) is None,
        },
{
    let s = chars_of(text);
    let start = skip(&s, 0);
    match read_value(&s, start, MAX_DEPTH) {
        Some((value, end)) => {
            let rest = skip(&s, end);
            match value {
                Value::Table(fields) => {
                    if rest == s.len() {
                        Some(Value::Table(fields))
                    } else {
                        None
                    }
                },
                _ => None,
            }
        },
        None => None,
    }
}

} // verus!
