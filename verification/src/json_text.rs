//! Reading fields of JSON values and writing values as text.

use vstd::prelude::*;

use crate::json;
use crate::json::{FieldView, Json, JsonView};
use crate::text;

verus! {

broadcast use json::group_json_view;

// ---------------------------------------------------------------------------
// Reading
// ---------------------------------------------------------------------------

/// The value of the first field named `key`.
pub open spec fn find_field(fields: Seq<FieldView>, key: Seq<char>) -> Option<JsonView>
    decreases fields.len(),
{
    if fields.len() == 0 {
        None
    } else if fields[0].key == key {
        Some(fields[0].value)
    } else {
        find_field(fields.drop_first(), key)
    }
}

/// The value that `v` holds under `key`; only an object holds any.
pub open spec fn field(v: JsonView, key: Seq<char>) -> Option<JsonView> {
    match v {
        JsonView::Object(fields) => find_field(fields, key),
        _ => None,
    }
}

/// The string that `v` holds under `key`.
pub open spec fn text_field(v: JsonView, key: Seq<char>) -> Option<Seq<char>> {
    match field(v, key) {
        Some(JsonView::Text(s)) => Some(s),
        _ => None,
    }
}

/// The string that `v` holds under `key`, or the empty string.
pub open spec fn text_or_empty(v: JsonView, key: Seq<char>) -> Seq<char> {
    match text_field(v, key) {
        Some(s) => s,
        None => Seq::empty(),
    }
}

proof fn lemma_find_field_index(fields: Seq<FieldView>, key: Seq<char>) -> (i: int)
    requires
        find_field(fields, key) is Some,
    ensures
        0 <= i < fields.len(),
        fields[i].key == key,
        find_field(fields, key) == Some(fields[i].value),
    decreases fields.len(),
{
    if fields[0].key == key {
        0
    } else {
        1 + lemma_find_field_index(fields.drop_first(), key)
    }
}

/// What an object holds under a key is smaller than the object.
pub proof fn lemma_field_smaller(v: JsonView, key: Seq<char>)
    requires
        field(v, key) is Some,
    ensures
        decreases_to!(v => field(v, key)->0),
{
    let fields = v->Object_0;
    let i = lemma_find_field_index(fields, key);
    json::lemma_value_smaller(fields, i);
}

impl Json {
    /// The value that this object holds under `key`.
    pub fn get(&self, key: &str) -> (r: Option<&Json>)
        ensures
            match r {
                Some(v) => field(self@, key@) == Some(v@),
                None => field(self@, key@) is None,
            },
    {
        match self {
            Json::Object(fields) => {
                let mut i: usize = 0;
                assert(json::fields_view(fields@).skip(0) =~= json::fields_view(fields@));
                while i < fields.len()
                    invariant
                        i <= fields@.len(),
                        field(self@, key@) == find_field(
                            json::fields_view(fields@).skip(i as int),
                            key@,
                        ),
                    decreases fields@.len() - i,
                {
                    let ghost rest = json::fields_view(fields@).skip(i as int);
                    assert(rest[0] == fields@[i as int]@);
                    if text::same_text(fields[i].key.as_str(), key) {
                        return Some(&fields[i].value);
                    }
                    assert(rest.drop_first() =~= json::fields_view(fields@).skip(i + 1));
                    i = i + 1;
                }
                None
            },
            _ => None,
        }
    }

    /// The text of a string value.
    pub fn as_str(&self) -> (r: Option<&str>)
        ensures
            match r {
                Some(s) => self@ == JsonView::Text(s@),
                None => !(self@ is Text),
            },
    {
        match self {
            Json::Text(s) => Some(s.as_str()),
            _ => None,
        }
    }

    /// The string that this object holds under `key`.
    pub fn get_str(&self, key: &str) -> (r: Option<&str>)
        ensures
            match r {
                Some(s) => text_field(self@, key@) == Some(s@),
                None => text_field(self@, key@) is None,
            },
    {
        match self.get(key) {
            Some(v) => v.as_str(),
            None => None,
        }
    }
}

// ---------------------------------------------------------------------------
// Strings as JSON text
// ---------------------------------------------------------------------------

/// The lower-case hexadecimal digit for `d`, where `d` is below sixteen.
pub open spec fn hex_digit(d: u32) -> char {
    if d < 10 {
        (0x30 + d) as char
    } else {
        (0x57 + d) as char
    }
}

/// How one character stands inside a JSON string.
pub open spec fn escaped_char(c: char) -> Seq<char> {
    let v = c as u32;
    if v == 0x22 {
        seq!['\\', '"']
    } else if v == 0x5c {
        seq!['\\', '\\']
    } else if v == 0x08 {
        seq!['\\', 'b']
    } else if v == 0x09 {
        seq!['\\', 't']
    } else if v == 0x0a {
        seq!['\\', 'n']
    } else if v == 0x0c {
        seq!['\\', 'f']
    } else if v == 0x0d {
        seq!['\\', 'r']
    } else if v < 0x20 {
        seq!['\\', 'u', '0', '0', hex_digit(v / 16), hex_digit(v % 16)]
    } else {
        seq![c]
    }
}

/// The characters of `s`, each as it stands inside a JSON string.
pub open spec fn escaped(s: Seq<char>) -> Seq<char>
    decreases s.len(),
{
    if s.len() == 0 {
        Seq::empty()
    } else {
        escaped_char(s[0]) + escaped(s.drop_first())
    }
}

/// `s` as a JSON string.
pub open spec fn quoted(s: Seq<char>) -> Seq<char> {
    seq!['"'] + escaped(s) + seq!['"']
}

/// `s` as a JSON string, written by `serde_json::to_string`.
///
/// Claimed of that function: on a string it does not fail, and it writes the characters between
/// quotation marks, with a two-character escape for the quotation mark, the reverse solidus,
/// backspace, tab, line feed, form feed and carriage return, with `\u00` and two lower-case
/// hexadecimal digits for every other character below U+0020, and every other character as it is.
#[verifier::external_body]
pub(crate) fn quote(s: &str) -> (r: String)
    ensures
        r@ == quoted(s@),
{
    serde_json::to_string(s).unwrap_or_default()
}

// ---------------------------------------------------------------------------
// Compact text
// ---------------------------------------------------------------------------

/// The text of `v` without white space between tokens, fields in the order in which they stand.
pub open spec fn compact(v: JsonView) -> Seq<char>
    decreases v,
{
    match v {
        JsonView::Null => "null"@,
        JsonView::Bool(b) => if b {
            "true"@
        } else {
            "false"@
        },
        JsonView::Number(n) => n,
        JsonView::Text(s) => quoted(s),
        JsonView::Array(items) => seq!['['] + text::join(compact_items(items), seq![','])
            + seq![']'],
        JsonView::Object(fields) => seq!['{'] + text::join(compact_fields(fields), seq![','])
            + seq!['}'],
    }
}

/// The compact text of each of some values.
pub open spec fn compact_items(items: Seq<JsonView>) -> Seq<Seq<char>>
    decreases items,
{
    if items.len() == 0 {
        Seq::empty()
    } else {
        compact_items(items.drop_last()).push(compact(items.last()))
    }
}

/// The compact text of each of some fields.
pub open spec fn compact_fields(fields: Seq<FieldView>) -> Seq<Seq<char>>
    decreases fields,
{
    if fields.len() == 0 {
        Seq::empty()
    } else {
        compact_fields(fields.drop_last()).push(
            quoted(fields.last().key) + seq![':'] + compact(fields.last().value),
        )
    }
}

/// `open`, the parts with a comma between neighbours, and `close`.
fn bracketed(open: char, parts: &Vec<String>, close: char) -> (r: String)
    ensures
        r@ == seq![open] + text::join(text::texts_view(parts@), seq![',']) + seq![close],
{
    let mut out = String::new();
    out.push(open);
    let inner = text::join_texts(parts, ",");
    proof {
        reveal_strlit(",");
        assert(","@ =~= seq![',']);
    }
    out.append(inner.as_str());
    out.push(close);
    assert(out@ =~= seq![open] + inner@ + seq![close]);
    out
}

/// A field written as its quoted key, a colon and the text of its value.
fn keyed(key: &str, value: &str) -> (r: String)
    ensures
        r@ == quoted(key@) + seq![':'] + value@,
{
    let mut out = quote(key);
    out.push(':');
    out.append(value);
    assert(out@ =~= quoted(key@) + seq![':'] + value@);
    out
}

/// The text of `v` without white space between tokens, fields in the order in which they stand.
pub fn compact_json(v: &Json) -> (r: String)
    ensures
        r@ == compact(v@),
    decreases v@,
{
    match v {
        Json::Null => "null".to_string(),
        Json::Bool(b) => if *b {
            "true".to_string()
        } else {
            "false".to_string()
        },
        Json::Number(n) => n.clone(),
        Json::Text(s) => quote(s.as_str()),
        Json::Array(items) => {
            let mut parts: Vec<String> = Vec::new();
            let mut i: usize = 0;
            let ghost all = json::items_view(items@);
            while i < items.len()
                invariant
                    i <= items@.len(),
                    all == json::items_view(items@),
                    v@ == JsonView::Array(all),
                    text::texts_view(parts@) == compact_items(all.take(i as int)),
                decreases items@.len() - i,
            {
                proof {
                    json::lemma_item_smaller(all, i as int);
                }
                let part = compact_json(&items[i]);
                proof {
                    text::lemma_texts_view_push(parts@, part);
                    assert(all.take(i + 1).drop_last() =~= all.take(i as int));
                }
                parts.push(part);
                i = i + 1;
            }
            assert(all.take(i as int) =~= all);
            bracketed('[', &parts, ']')
        },
        Json::Object(fields) => {
            let mut parts: Vec<String> = Vec::new();
            let mut i: usize = 0;
            let ghost all = json::fields_view(fields@);
            while i < fields.len()
                invariant
                    i <= fields@.len(),
                    all == json::fields_view(fields@),
                    v@ == JsonView::Object(all),
                    text::texts_view(parts@) == compact_fields(all.take(i as int)),
                decreases fields@.len() - i,
            {
                proof {
                    json::lemma_value_smaller(all, i as int);
                }
                let value = compact_json(&fields[i].value);
                let part = keyed(fields[i].key.as_str(), value.as_str());
                proof {
                    text::lemma_texts_view_push(parts@, part);
                    assert(all.take(i + 1).drop_last() =~= all.take(i as int));
                }
                parts.push(part);
                i = i + 1;
            }
            assert(all.take(i as int) =~= all);
            bracketed('{', &parts, '}')
        },
    }
}

// ---------------------------------------------------------------------------
// Canonical text
// ---------------------------------------------------------------------------

/// A field that has been written: its key, and the text of the whole field.
#[verifier::ext_equal]
pub struct WrittenView {
    pub key: Seq<char>,
    pub text: Seq<char>,
}

/// `sorted` with `w` put behind every field whose key does not stand after that of `w`.
pub open spec fn insert_by_key(sorted: Seq<WrittenView>, w: WrittenView) -> Seq<WrittenView>
    decreases sorted.len(),
{
    if sorted.len() == 0 || text::text_le(sorted.last().key, w.key) {
        sorted.push(w)
    } else {
        insert_by_key(sorted.drop_last(), w).push(sorted.last())
    }
}

/// The fields in the order of their keys; those with equal keys keep their order.
pub open spec fn sorted_by_key(fields: Seq<WrittenView>) -> Seq<WrittenView>
    decreases fields.len(),
{
    if fields.len() == 0 {
        Seq::empty()
    } else {
        insert_by_key(sorted_by_key(fields.drop_last()), fields.last())
    }
}

/// The texts of some written fields.
pub open spec fn written_texts(fields: Seq<WrittenView>) -> Seq<Seq<char>> {
    fields.map_values(|w: WrittenView| w.text)
}

/// The text of `v` without white space between tokens, the fields of every object in the order
/// of their keys.
pub open spec fn canonical(v: JsonView) -> Seq<char>
    decreases v,
{
    match v {
        JsonView::Array(items) => seq!['['] + text::join(canonical_items(items), seq![','])
            + seq![']'],
        JsonView::Object(fields) => seq!['{'] + text::join(
            written_texts(sorted_by_key(written_fields(fields))),
            seq![','],
        ) + seq!['}'],
        _ => compact(v),
    }
}

/// The canonical text of each of some values.
pub open spec fn canonical_items(items: Seq<JsonView>) -> Seq<Seq<char>>
    decreases items,
{
    if items.len() == 0 {
        Seq::empty()
    } else {
        canonical_items(items.drop_last()).push(canonical(items.last()))
    }
}

/// Some fields, each written as its quoted key, a colon and the canonical text of its value.
pub open spec fn written_fields(fields: Seq<FieldView>) -> Seq<WrittenView>
    decreases fields,
{
    if fields.len() == 0 {
        Seq::empty()
    } else {
        let f = fields.last();
        written_fields(fields.drop_last()).push(
            WrittenView { key: f.key, text: quoted(f.key) + seq![':'] + canonical(f.value) },
        )
    }
}

/// Where [`insert_by_key`] puts the new field.
proof fn lemma_insert_position(sorted: Seq<WrittenView>, w: WrittenView, pos: int)
    requires
        0 <= pos <= sorted.len(),
        pos > 0 ==> text::text_le(sorted[pos - 1].key, w.key),
        forall|k: int| pos <= k < sorted.len() ==> !text::text_le(#[trigger] sorted[k].key, w.key),
    ensures
        insert_by_key(sorted, w) == sorted.insert(pos, w),
    decreases sorted.len(),
{
    if pos == sorted.len() {
        assert(sorted.insert(pos, w) =~= sorted.push(w));
    } else {
        assert(!text::text_le(sorted[sorted.len() - 1].key, w.key));
        lemma_insert_position(sorted.drop_last(), w, pos);
        assert(sorted.insert(pos, w) =~= sorted.drop_last().insert(pos, w).push(sorted.last()));
    }
}

/// A field that has been written: its key, and the text of the whole field.
struct Written {
    key: String,
    text: String,
}

spec fn written_view(w: Written) -> WrittenView {
    WrittenView { key: w.key@, text: w.text@ }
}

spec fn written_views(ws: Seq<Written>) -> Seq<WrittenView> {
    ws.map_values(|w: Written| written_view(w))
}

fn insert_written(sorted: &mut Vec<Written>, w: Written)
    ensures
        written_views(final(sorted)@) == insert_by_key(
            written_views(old(sorted)@),
            written_view(w),
        ),
{
    let mut pos: usize = sorted.len();
    let ghost views = written_views(sorted@);
    while pos > 0 && !text::not_after(sorted[pos - 1].key.as_str(), w.key.as_str())
        invariant
            pos <= sorted@.len(),
            views == written_views(sorted@),
            forall|k: int|
                pos <= k < views.len() ==> !text::text_le(
                    #[trigger] views[k].key,
                    written_view(w).key,
                ),
        decreases pos,
    {
        pos = pos - 1;
    }
    proof {
        lemma_insert_position(views, written_view(w), pos as int);
        assert(written_views(sorted@.insert(pos as int, w)) =~= views.insert(
            pos as int,
            written_view(w),
        ));
    }
    sorted.insert(pos, w);
}

/// The text of `v` without white space between tokens, the fields of every object in the order
/// of their keys.
pub fn canonical_json(v: &Json) -> (r: String)
    ensures
        r@ == canonical(v@),
    decreases v@,
{
    match v {
        Json::Array(items) => {
            let mut parts: Vec<String> = Vec::new();
            let mut i: usize = 0;
            let ghost all = json::items_view(items@);
            while i < items.len()
                invariant
                    i <= items@.len(),
                    all == json::items_view(items@),
                    v@ == JsonView::Array(all),
                    text::texts_view(parts@) == canonical_items(all.take(i as int)),
                decreases items@.len() - i,
            {
                proof {
                    json::lemma_item_smaller(all, i as int);
                }
                let part = canonical_json(&items[i]);
                proof {
                    text::lemma_texts_view_push(parts@, part);
                    assert(all.take(i + 1).drop_last() =~= all.take(i as int));
                }
                parts.push(part);
                i = i + 1;
            }
            assert(all.take(i as int) =~= all);
            bracketed('[', &parts, ']')
        },
        Json::Object(fields) => {
            let mut sorted: Vec<Written> = Vec::new();
            let mut i: usize = 0;
            let ghost all = json::fields_view(fields@);
            assert(written_views(sorted@) =~= sorted_by_key(written_fields(all.take(0))));
            while i < fields.len()
                invariant
                    i <= fields@.len(),
                    all == json::fields_view(fields@),
                    v@ == JsonView::Object(all),
                    written_views(sorted@) == sorted_by_key(written_fields(all.take(i as int))),
                decreases fields@.len() - i,
            {
                proof {
                    json::lemma_value_smaller(all, i as int);
                }
                let value = canonical_json(&fields[i].value);
                let text = keyed(fields[i].key.as_str(), value.as_str());
                let w = Written { key: fields[i].key.clone(), text };
                proof {
                    let next = written_fields(all.take(i + 1));
                    assert(all.take(i + 1).drop_last() =~= all.take(i as int));
                    assert(written_view(w) == next.last());
                    assert(next.drop_last() =~= written_fields(all.take(i as int)));
                }
                insert_written(&mut sorted, w);
                i = i + 1;
            }
            assert(all.take(i as int) =~= all);
            let mut parts: Vec<String> = Vec::new();
            let mut k: usize = 0;
            let ghost order = written_views(sorted@);
            while k < sorted.len()
                invariant
                    k <= sorted@.len(),
                    order == written_views(sorted@),
                    text::texts_view(parts@) == written_texts(order).take(k as int),
                decreases sorted@.len() - k,
            {
                let part = sorted[k].text.clone();
                proof {
                    text::lemma_texts_view_push(parts@, part);
                    assert(written_texts(order).take(k + 1) =~= written_texts(order).take(
                        k as int,
                    ).push(part@));
                }
                parts.push(part);
                k = k + 1;
            }
            assert(written_texts(order).take(k as int) =~= written_texts(order));
            bracketed('{', &parts, '}')
        },
        _ => compact_json(v),
    }
}

} // verus!
