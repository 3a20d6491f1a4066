//! How values are written and read field by field, and how texts are taken apart into lines.

use vstd::prelude::*;

use crate::json::{FieldView, JsonView};
use crate::json_text;
use crate::request;
use crate::text;

verus! {

// ---------------------------------------------------------------------------
// Fields
// ---------------------------------------------------------------------------

/// The field of an object under a key is the first one with that key. An object without one has
/// none, and neither has what is no object.
pub proof fn law_the_first_field_counts(v: JsonView, fields: Seq<FieldView>, key: Seq<char>, i: int)
    ensures
        0 <= i < fields.len() && fields[i].key == key && (forall|j: int|
            0 <= j < i ==> (#[trigger] fields[j]).key != key) ==> json_text::field(
            JsonView::Object(fields),
            key,
        ) == Some(fields[i].value),
        (forall|j: int| 0 <= j < fields.len() ==> (#[trigger] fields[j]).key != key)
            ==> json_text::field(JsonView::Object(fields), key) is None,
        !(v is Object) ==> json_text::field(v, key) is None,
    decreases fields.len(),
{
    if fields.len() > 0 {
        let rest = fields.drop_first();
        law_the_first_field_counts(v, rest, key, i - 1);
        assert forall|j: int| 0 <= j < rest.len() implies #[trigger] rest[j] == fields[j + 1] by {}
        if 0 < i < fields.len() && fields[i].key == key && (forall|j: int|
            0 <= j < i ==> (#[trigger] fields[j]).key != key) {
            assert(fields[0].key != key);
            assert forall|j: int| 0 <= j < i - 1 implies (#[trigger] rest[j]).key != key by {
                assert(rest[j] == fields[j + 1]);
            }
            assert(rest[i - 1] == fields[i]);
        }
        if forall|j: int| 0 <= j < fields.len() ==> (#[trigger] fields[j]).key != key {
            assert(fields[0].key != key);
            assert forall|j: int| 0 <= j < rest.len() implies (#[trigger] rest[j]).key != key by {
                assert(rest[j] == fields[j + 1]);
            }
        }
    }
}

/// A field that is put into a schema is found there, in place of one with its key, and every other
/// field stays; there is one more field only where the key is new.
pub proof fn law_fields_put_in_are_found(fields: Seq<FieldView>, f: FieldView, key: Seq<char>)
    requires
        request::keys_increase(fields),
        key != f.key,
    ensures
        ({
            let after = request::with_field(fields, f);
            &&& json_text::find_field(after, f.key) == Some(f.value)
            &&& json_text::find_field(after, key) == json_text::find_field(fields, key)
            &&& json_text::find_field(fields, f.key) is Some ==> after.len() == fields.len()
            &&& json_text::find_field(fields, f.key) is None ==> after.len() == fields.len() + 1
        }),
    decreases fields.len(),
{
    let after = request::with_field(fields, f);
    reveal_with_fuel(json_text::find_field, 2);
    if fields.len() == 0 {
        assert(after.drop_first() =~= fields);
    } else {
        let rest = fields.drop_first();
        assert(request::keys_increase(rest)) by {
            assert forall|i: int, j: int| 0 <= i < j < rest.len() implies text::text_le(
                #[trigger] rest[i].key,
                rest[j].key,
            ) && rest[i].key != #[trigger] rest[j].key by {
                assert(rest[i] == fields[i + 1] && rest[j] == fields[j + 1]);
            }
        }
        if fields[0].key == f.key {
            assert(after.drop_first() =~= rest);
        } else if text::text_le(f.key, fields[0].key) {
            assert(after.drop_first() =~= fields);
            if json_text::find_field(fields, f.key) is Some {
                lemma_found(fields, f.key);
                let i = choose|i: int| 0 <= i < fields.len() && #[trigger] fields[i].key == f.key;
                assert(text::text_le(fields[0].key, fields[i].key));
                text::lemma_text_le_total(f.key, fields[0].key);
            }
        } else {
            law_fields_put_in_are_found(rest, f, key);
            assert(after.drop_first() =~= request::with_field(rest, f));
            assert(after[0] == fields[0]);
        }
    }
}

proof fn lemma_found(fields: Seq<FieldView>, key: Seq<char>)
    requires
        json_text::find_field(fields, key) is Some,
    ensures
        exists|i: int| 0 <= i < fields.len() && #[trigger] fields[i].key == key,
    decreases fields.len(),
{
    if fields[0].key != key {
        let rest = fields.drop_first();
        lemma_found(rest, key);
        let i = choose|i: int| 0 <= i < rest.len() && #[trigger] rest[i].key == key;
        assert(fields[i + 1].key == key);
    }
}

// ---------------------------------------------------------------------------
// Compact texts
// ---------------------------------------------------------------------------

/// What is neither a list nor an object is written as its word, its digits or its quoted string.
pub proof fn law_simple_values_are_written(n: Seq<char>, s: Seq<char>)
    ensures
        json_text::compact(JsonView::Null) == "null"@,
        json_text::compact(JsonView::Bool(true)) == "true"@,
        json_text::compact(JsonView::Bool(false)) == "false"@,
        json_text::compact(JsonView::Number(n)) == n,
        json_text::compact(JsonView::Text(s)) == json_text::quoted(s),
        json_text::canonical(JsonView::Null) == "null"@,
        json_text::canonical(JsonView::Bool(true)) == "true"@,
        json_text::canonical(JsonView::Bool(false)) == "false"@,
        json_text::canonical(JsonView::Number(n)) == n,
        json_text::canonical(JsonView::Text(s)) == json_text::quoted(s),
{
}

/// A quoted string is the string between quotes, with each character written by itself.
pub proof fn law_strings_are_quoted(s: Seq<char>, c: char)
    ensures
        json_text::quoted(Seq::empty()) == seq!['"', '"'],
        json_text::quoted(seq![c] + s) == seq!['"'] + json_text::escaped_char(c)
            + json_text::quoted(s).drop_first(),
{
    assert(json_text::quoted(Seq::empty()) =~= seq!['"', '"']);
    let t = seq![c] + s;
    assert(t.drop_first() =~= s);
    assert(json_text::quoted(s).drop_first() =~= json_text::escaped(s) + seq!['"']);
    assert(json_text::quoted(t) =~= seq!['"'] + json_text::escaped_char(c)
        + json_text::quoted(s).drop_first());
}

/// The number of a hexadecimal digit.
pub open spec fn digit_value(c: char) -> int {
    if '0' <= c <= '9' {
        c as int - '0' as int
    } else {
        10 + c as int - 'a' as int
    }
}

/// A character is written as itself, but for quotes, backslashes and control characters: these have
/// a backslash before them, or before their letter, or else before the four digits of their number.
pub proof fn law_characters_are_escaped(c: char)
    ensures
        ({
            let e = json_text::escaped_char(c);
            let v = c as u32;
            let letter = v == 8 || v == 9 || v == 10 || v == 12 || v == 13;
            &&& v >= 32 && c != '"' && c != '\\' ==> e == seq![c]
            &&& c == '"' || c == '\\' ==> e == seq!['\\', c]
            &&& v == 8 ==> e == seq!['\\', 'b']
            &&& v == 9 ==> e == seq!['\\', 't']
            &&& v == 10 ==> e == seq!['\\', 'n']
            &&& v == 12 ==> e == seq!['\\', 'f']
            &&& v == 13 ==> e == seq!['\\', 'r']
            &&& v < 32 && !letter ==> {
                &&& e.len() == 6
                &&& e.take(4) == seq!['\\', 'u', '0', '0']
                &&& '0' <= e[4] <= '1'
                &&& '0' <= e[5] <= '9' || 'a' <= e[5] <= 'f'
                &&& 16 * digit_value(e[4]) + digit_value(e[5]) == v
            }
        }),
{
    let e = json_text::escaped_char(c);
    let v = c as u32;
    assert(0x22u32 as char == '"' && 0x5cu32 as char == '\\');
    if v < 32 && !(v == 8 || v == 9 || v == 10 || v == 12 || v == 13) {
        assert(e.take(4) =~= seq!['\\', 'u', '0', '0']);
    }
}

/// A list is written with a comma between any two items, and nothing else between the brackets.
pub proof fn law_lists_are_written(items: Seq<JsonView>, v: JsonView)
    ensures
        json_text::compact(JsonView::Array(Seq::empty())) == seq!['[', ']'],
        json_text::compact(JsonView::Array(items.push(v))) == json_text::compact(
            JsonView::Array(items),
        ).drop_last() + (if items.len() > 0 {
            seq![',']
        } else {
            Seq::empty()
        }) + json_text::compact(v) + seq![']'],
        json_text::canonical(JsonView::Array(Seq::empty())) == seq!['[', ']'],
        json_text::canonical(JsonView::Array(items.push(v))) == json_text::canonical(
            JsonView::Array(items),
        ).drop_last() + (if items.len() > 0 {
            seq![',']
        } else {
            Seq::empty()
        }) + json_text::canonical(v) + seq![']'],
{
    let none = Seq::<JsonView>::empty();
    let sep = seq![','];
    reveal_with_fuel(json_text::compact, 3);
    reveal_with_fuel(json_text::compact_items, 3);
    reveal_with_fuel(json_text::canonical, 3);
    reveal_with_fuel(json_text::canonical_items, 3);
    assert(items.push(v).drop_last() =~= items);
    assert(json_text::compact(JsonView::Array(none)) =~= seq!['[', ']']);
    assert(json_text::canonical(JsonView::Array(none)) =~= seq!['[', ']']);
    let a = json_text::compact_items(items);
    let b = json_text::canonical_items(items);
    lemma_items_len(items);
    text::lemma_join_push(a, json_text::compact(v), sep);
    text::lemma_join_push(b, json_text::canonical(v), sep);
    assert(json_text::compact(JsonView::Array(items)).drop_last() =~= seq!['['] + text::join(
        a,
        sep,
    ));
    assert(json_text::canonical(JsonView::Array(items)).drop_last() =~= seq!['['] + text::join(
        b,
        sep,
    ));
    let between = if items.len() > 0 {
        seq![',']
    } else {
        Seq::empty()
    };
    if items.len() == 0 {
        assert(text::join(a, sep) =~= Seq::empty());
        assert(text::join(b, sep) =~= Seq::empty());
    }
    assert(json_text::compact(JsonView::Array(items.push(v))) =~= seq!['['] + text::join(a, sep)
        + between + json_text::compact(v) + seq![']']);
    assert(json_text::canonical(JsonView::Array(items.push(v))) =~= seq!['['] + text::join(b, sep)
        + between + json_text::canonical(v) + seq![']']);
}

proof fn lemma_items_len(items: Seq<JsonView>)
    ensures
        json_text::compact_items(items).len() == items.len(),
        json_text::canonical_items(items).len() == items.len(),
    decreases items.len(),
{
    if items.len() > 0 {
        lemma_items_len(items.drop_last());
    }
}

proof fn lemma_fields_len(fields: Seq<FieldView>)
    ensures
        json_text::compact_fields(fields).len() == fields.len(),
    decreases fields.len(),
{
    if fields.len() > 0 {
        lemma_fields_len(fields.drop_last());
    }
}

/// An object is written with a comma between any two fields, and a field as its quoted key, a colon
/// and its value; nothing else stands between the braces.
pub proof fn law_objects_are_written(fields: Seq<FieldView>, f: FieldView)
    ensures
        json_text::compact(JsonView::Object(Seq::empty())) == seq!['{', '}'],
        json_text::compact(JsonView::Object(fields.push(f))) == json_text::compact(
            JsonView::Object(fields),
        ).drop_last() + (if fields.len() > 0 {
            seq![',']
        } else {
            Seq::empty()
        }) + json_text::quoted(f.key) + seq![':'] + json_text::compact(f.value) + seq!['}'],
{
    let none = Seq::<FieldView>::empty();
    let sep = seq![','];
    reveal_with_fuel(json_text::compact, 3);
    reveal_with_fuel(json_text::compact_fields, 3);
    assert(fields.push(f).drop_last() =~= fields);
    assert(json_text::compact(JsonView::Object(none)) =~= seq!['{', '}']);
    let a = json_text::compact_fields(fields);
    let written = json_text::quoted(f.key) + seq![':'] + json_text::compact(f.value);
    lemma_fields_len(fields);
    text::lemma_join_push(a, written, sep);
    assert(json_text::compact(JsonView::Object(fields)).drop_last() =~= seq!['{'] + text::join(
        a,
        sep,
    ));
    let between = if fields.len() > 0 {
        seq![',']
    } else {
        Seq::empty()
    };
    if fields.len() == 0 {
        assert(text::join(a, sep) =~= Seq::empty());
    }
    assert(json_text::compact(JsonView::Object(fields.push(f))) =~= seq!['{'] + text::join(a, sep)
        + between + json_text::quoted(f.key) + seq![':'] + json_text::compact(f.value)
        + seq!['}']);
}

// ---------------------------------------------------------------------------
// Lines
// ---------------------------------------------------------------------------

/// A text has the line before its first line feed, without a carriage return at its end, and the
/// lines behind that line feed; one without a line feed is a single line, unless it is empty.
pub proof fn law_texts_have_lines(line: Seq<char>, rest: Seq<char>)
    requires
        forall|i: int| 0 <= i < line.len() ==> #[trigger] line[i] != '\n',
    ensures
        text::lines_of(Seq::empty()).len() == 0,
        line.len() > 0 ==> text::lines_of(line) == seq![line],
        ({
            let lines = text::lines_of(line + seq!['\n'] + rest);
            &&& lines.len() == 1 + text::lines_of(rest).len()
            &&& lines.drop_first() == text::lines_of(rest)
            &&& line.len() > 0 && line.last() == '\r' ==> lines[0] == line.drop_last()
            &&& line.len() == 0 || line.last() != '\r' ==> lines[0] == line
        }),
{
    text::lemma_line_end(line);
    let whole = line + seq!['\n'] + rest;
    text::lemma_line_end(whole);
    let e = text::line_end(whole) as int;
    let n = line.len() as int;
    assert(whole[n] == '\n');
    if e < n {
        assert(whole[e] == line[e]);
    }
    assert(e == n);
    assert(whole.take(e) =~= line);
    assert(whole.skip(e + 1) =~= rest);
    assert(text::lines_of(whole).drop_first() =~= text::lines_of(rest));
}

/// A character takes one byte up to 0x7f, two up to 0x7ff, three up to 0xffff and four beyond.
pub proof fn law_characters_take_one_to_four_bytes(s: Seq<char>, c: char)
    ensures
        text::utf8_len(Seq::empty()) == 0,
        text::utf8_len(s.push(c)) == text::utf8_len(s) + if c as u32 <= 0x7f {
            1nat
        } else if c as u32 <= 0x7ff {
            2
        } else if c as u32 <= 0xffff {
            3
        } else {
            4
        },
{
    text::lemma_utf8_len_push(s, c);
    assert(vstd::utf8::encode_utf8(Seq::<char>::empty()).len() == 0);
}

/// Texts are joined with a separator between any two of them.
pub proof fn law_texts_are_joined(parts: Seq<Seq<char>>, last: Seq<char>, sep: Seq<char>)
    ensures
        text::join(Seq::empty(), sep).len() == 0,
        text::join(seq![last], sep) == last,
        parts.len() > 0 ==> text::join(parts.push(last), sep) == text::join(parts, sep) + sep
            + last,
{
    text::lemma_join_push(parts, last, sep);
}

/// Texts are ordered by the first character in which they differ; a text comes before every longer
/// text that begins with it.
pub proof fn law_texts_are_ordered(same: Seq<char>, a: Seq<char>, b: Seq<char>)
    ensures
        a.len() > 0 && b.len() > 0 && a[0] < b[0] ==> text::text_le(same + a, same + b)
            && !text::text_le(same + b, same + a),
        a.len() == 0 ==> text::text_le(same + a, same + b),
        a.len() == 0 && b.len() > 0 ==> !text::text_le(same + b, same + a),
    decreases same.len(),
{
    if same.len() > 0 {
        law_texts_are_ordered(same.drop_first(), a, b);
        assert((same + a).drop_first() =~= same.drop_first() + a);
        assert((same + b).drop_first() =~= same.drop_first() + b);
    } else {
        assert(same + a =~= a);
        assert(same + b =~= b);
    }
}

} // verus!
