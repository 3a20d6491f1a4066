//! What holds of the texts of JSON values: they determine the value, and canonical texts do not
//! depend on the order of fields.

use vstd::prelude::*;

use crate::json::{FieldView, JsonView};
use crate::json_text;
use crate::json_text::WrittenView;
use crate::text;

verus! {

// ---------------------------------------------------------------------------
// Strings
// ---------------------------------------------------------------------------

/// Equal texts have equal beginnings and equal ends.
proof fn lemma_split_equal(a: Seq<char>, b: Seq<char>, x: Seq<char>, y: Seq<char>)
    requires
        a + x == b + y,
        a.len() == b.len(),
    ensures
        a == b,
        x == y,
{
    assert(a =~= (a + x).take(a.len() as int));
    assert(b =~= (b + y).take(b.len() as int));
    assert(x =~= (a + x).skip(a.len() as int));
    assert(y =~= (b + y).skip(b.len() as int));
}

/// What an escape begins with.
proof fn lemma_escape_begins(c: char)
    ensures
        json_text::escaped_char(c).len() >= 1,
        json_text::escaped_char(c)[0] != '"',
        json_text::escaped_char(c).len() == 1 <==> json_text::escaped_char(c)[0] != '\\',
        json_text::escaped_char(c).len() == 1 ==> json_text::escaped_char(c) == seq![c],
{
}

/// An escape can be told from what follows it.
proof fn lemma_escape_is_delimited(c: char, d: char, x: Seq<char>, y: Seq<char>)
    requires
        json_text::escaped_char(c) + x == json_text::escaped_char(d) + y,
    ensures
        c == d,
        x == y,
{
    let u = json_text::escaped_char(c);
    let v = json_text::escaped_char(d);
    lemma_escape_begins(c);
    lemma_escape_begins(d);
    assert((u + x)[0] == u[0]);
    assert((v + y)[0] == v[0]);
    if u.len() > 1 {
        assert(v.len() > 1);
        assert((u + x)[1] == u[1]);
        assert((v + y)[1] == v[1]);
        if u[1] == 'u' {
            assert(u.len() == 6 && v.len() == 6);
            assert((u + x)[4] == u[4] && (u + x)[5] == u[5]);
            assert((v + y)[4] == v[4] && (v + y)[5] == v[5]);
            let a = c as u32;
            let b = d as u32;
            lemma_hex_digit(a / 16, b / 16);
            lemma_hex_digit(a % 16, b % 16);
            assert(a == b);
        }
    } else {
        assert(v.len() == 1);
    }
    lemma_split_equal(u, v, x, y);
}

proof fn lemma_hex_digit(a: u32, b: u32)
    requires
        a < 16,
        b < 16,
        json_text::hex_digit(a) == json_text::hex_digit(b),
    ensures
        a == b,
{
}

/// A string can be told from what follows it.
proof fn lemma_escaped_is_delimited(a: Seq<char>, b: Seq<char>, x: Seq<char>, y: Seq<char>)
    requires
        json_text::escaped(a) + (seq!['"'] + x) == json_text::escaped(b) + (seq!['"'] + y),
    ensures
        a == b,
        x == y,
    decreases a.len(),
{
    let ta = seq!['"'] + x;
    let tb = seq!['"'] + y;
    let whole = json_text::escaped(a) + ta;
    if a.len() == 0 && b.len() == 0 {
        assert(json_text::escaped(a) + ta =~= ta);
        assert(json_text::escaped(b) + tb =~= tb);
        lemma_split_equal(seq!['"'], seq!['"'], x, y);
        assert(a =~= b);
    } else if a.len() == 0 {
        lemma_escape_begins(b[0]);
        assert(whole[0] == '"');
        assert((json_text::escaped(b) + tb)[0] == json_text::escaped_char(b[0])[0]);
    } else if b.len() == 0 {
        lemma_escape_begins(a[0]);
        assert((json_text::escaped(b) + tb)[0] == '"');
        assert(whole[0] == json_text::escaped_char(a[0])[0]);
    } else {
        let ra = json_text::escaped(a.drop_first()) + ta;
        let rb = json_text::escaped(b.drop_first()) + tb;
        assert(json_text::escaped(a) + ta =~= json_text::escaped_char(a[0]) + ra);
        assert(json_text::escaped(b) + tb =~= json_text::escaped_char(b[0]) + rb);
        lemma_escape_is_delimited(a[0], b[0], ra, rb);
        lemma_escaped_is_delimited(a.drop_first(), b.drop_first(), x, y);
        assert(a =~= seq![a[0]] + a.drop_first());
        assert(b =~= seq![b[0]] + b.drop_first());
    }
}

/// A JSON string determines its characters, and can be told from what follows it.
pub proof fn law_quoted_text_is_delimited(a: Seq<char>, b: Seq<char>, x: Seq<char>, y: Seq<char>)
    requires
        json_text::quoted(a) + x == json_text::quoted(b) + y,
    ensures
        a == b,
        x == y,
{
    let ta = json_text::escaped(a) + (seq!['"'] + x);
    let tb = json_text::escaped(b) + (seq!['"'] + y);
    assert(json_text::quoted(a) + x =~= seq!['"'] + ta);
    assert(json_text::quoted(b) + y =~= seq!['"'] + tb);
    lemma_split_equal(seq!['"'], seq!['"'], ta, tb);
    lemma_escaped_is_delimited(a, b, x, y);
}

// ---------------------------------------------------------------------------
// Values
// ---------------------------------------------------------------------------

/// The characters of numbers.
pub open spec fn number_char(c: char) -> bool {
    ('0' <= c <= '9') || c == '+' || c == '-' || c == '.' || c == 'e' || c == 'E'
}

/// Whether a text may be that of a number: it begins with a digit or a minus sign, and has only the
/// characters of numbers.
pub open spec fn number_text(n: Seq<char>) -> bool {
    &&& n.len() > 0
    &&& ('0' <= n[0] <= '9') || n[0] == '-'
    &&& forall|i: int| 0 <= i < n.len() ==> number_char(#[trigger] n[i])
}

/// Whether the numbers in a value have texts of numbers.
pub open spec fn well_formed(v: JsonView) -> bool
    decreases v,
{
    match v {
        JsonView::Number(n) => number_text(n),
        JsonView::Array(items) => forall|i: int|
            0 <= i < items.len() ==> well_formed(#[trigger] items[i]),
        JsonView::Object(fields) => forall|i: int|
            0 <= i < fields.len() ==> well_formed((#[trigger] fields[i]).value),
        _ => true,
    }
}

/// Whether a text does not carry on a number that stands before it.
pub open spec fn ends_number(t: Seq<char>) -> bool {
    t.len() == 0 || !number_char(t[0])
}

/// What a kind of value begins with.
pub open spec fn begins_as(v: JsonView, c: char) -> bool {
    match v {
        JsonView::Null => c == 'n',
        JsonView::Bool(b) => c == if b {
            't'
        } else {
            'f'
        },
        JsonView::Number(_) => ('0' <= c <= '9') || c == '-',
        JsonView::Text(_) => c == '"',
        JsonView::Array(_) => c == '[',
        JsonView::Object(_) => c == '{',
    }
}

proof fn lemma_compact_begins(v: JsonView)
    requires
        well_formed(v),
    ensures
        json_text::compact(v).len() > 0,
        begins_as(v, json_text::compact(v)[0]),
{
    reveal_strlit("null");
    reveal_strlit("true");
    reveal_strlit("false");
}

proof fn lemma_compact_items(items: Seq<JsonView>)
    ensures
        json_text::compact_items(items).len() == items.len(),
        forall|i: int|
            0 <= i < items.len() ==> #[trigger] json_text::compact_items(items)[i]
                == json_text::compact(items[i]),
    decreases items.len(),
{
    if items.len() > 0 {
        lemma_compact_items(items.drop_last());
    }
}

/// The compact text of a field.
pub open spec fn compact_field(f: FieldView) -> Seq<char> {
    json_text::quoted(f.key) + seq![':'] + json_text::compact(f.value)
}

proof fn lemma_compact_fields(fields: Seq<FieldView>)
    ensures
        json_text::compact_fields(fields).len() == fields.len(),
        forall|i: int|
            0 <= i < fields.len() ==> #[trigger] json_text::compact_fields(fields)[i]
                == compact_field(fields[i]),
    decreases fields.len(),
{
    if fields.len() > 0 {
        lemma_compact_fields(fields.drop_last());
    }
}

proof fn lemma_compact_items_rest(items: Seq<JsonView>)
    requires
        items.len() > 0,
    ensures
        json_text::compact_items(items).drop_first() == json_text::compact_items(
            items.drop_first(),
        ),
{
    lemma_compact_items(items);
    lemma_compact_items(items.drop_first());
    assert(json_text::compact_items(items).drop_first() =~= json_text::compact_items(
        items.drop_first(),
    ));
}

proof fn lemma_compact_fields_rest(fields: Seq<FieldView>)
    requires
        fields.len() > 0,
    ensures
        json_text::compact_fields(fields).drop_first() == json_text::compact_fields(
            fields.drop_first(),
        ),
{
    lemma_compact_fields(fields);
    lemma_compact_fields(fields.drop_first());
    assert(json_text::compact_fields(fields).drop_first() =~= json_text::compact_fields(
        fields.drop_first(),
    ));
}

/// The text of an array without its first bracket, and what follows it.
spec fn array_rest(items: Seq<JsonView>, t: Seq<char>) -> Seq<char> {
    text::join(json_text::compact_items(items), seq![',']) + (seq![']'] + t)
}

/// The text of an object without its first brace, and what follows it.
spec fn object_rest(fields: Seq<FieldView>, t: Seq<char>) -> Seq<char> {
    text::join(json_text::compact_fields(fields), seq![',']) + (seq!['}'] + t)
}

/// What stands behind the first item of an array.
spec fn after_first_item(items: Seq<JsonView>, t: Seq<char>) -> Seq<char> {
    if items.len() == 1 {
        seq![']'] + t
    } else {
        seq![','] + array_rest(items.drop_first(), t)
    }
}

spec fn after_first_field(fields: Seq<FieldView>, t: Seq<char>) -> Seq<char> {
    if fields.len() == 1 {
        seq!['}'] + t
    } else {
        seq![','] + object_rest(fields.drop_first(), t)
    }
}

proof fn lemma_array_rest(items: Seq<JsonView>, t: Seq<char>)
    requires
        items.len() > 0,
    ensures
        array_rest(items, t) == json_text::compact(items[0]) + after_first_item(items, t),
        ends_number(after_first_item(items, t)),
{
    let parts = json_text::compact_items(items);
    lemma_compact_items(items);
    lemma_compact_items_rest(items);
    text::lemma_join_front(parts, seq![',']);
    assert(array_rest(items, t) =~= json_text::compact(items[0]) + after_first_item(items, t));
}

proof fn lemma_object_rest(fields: Seq<FieldView>, t: Seq<char>)
    requires
        fields.len() > 0,
    ensures
        object_rest(fields, t) == json_text::quoted(fields[0].key) + (seq![':'] + (
        json_text::compact(fields[0].value) + after_first_field(fields, t))),
        ends_number(after_first_field(fields, t)),
{
    let parts = json_text::compact_fields(fields);
    lemma_compact_fields(fields);
    lemma_compact_fields_rest(fields);
    text::lemma_join_front(parts, seq![',']);
    assert(object_rest(fields, t) =~= json_text::quoted(fields[0].key) + (seq![':'] + (
    json_text::compact(fields[0].value) + after_first_field(fields, t))));
}

/// The text of a number can be told from what follows it.
proof fn lemma_number_is_delimited(a: Seq<char>, b: Seq<char>, x: Seq<char>, y: Seq<char>)
    requires
        number_text(a),
        number_text(b),
        ends_number(x),
        ends_number(y),
        a + x == b + y,
    ensures
        a == b,
        x == y,
{
    let whole = a + x;
    if a.len() < b.len() {
        let i = a.len() as int;
        assert(whole[i] == x[0]);
        assert((b + y)[i] == b[i]);
        assert(number_char(b[i]));
    } else if b.len() < a.len() {
        let i = b.len() as int;
        assert((b + y)[i] == y[0]);
        assert(whole[i] == a[i]);
        assert(number_char(a[i]));
    }
    lemma_split_equal(a, b, x, y);
}

/// The compact text of a value determines the value, and can be told from what follows it, unless
/// the value is a number that what follows carries on.
pub proof fn law_compact_text_is_delimited(
    v: JsonView,
    w: JsonView,
    x: Seq<char>,
    y: Seq<char>,
)
    requires
        well_formed(v),
        well_formed(w),
        v is Number ==> ends_number(x) && ends_number(y),
        json_text::compact(v) + x == json_text::compact(w) + y,
    ensures
        v == w,
        x == y,
    decreases v,
{
    let a = json_text::compact(v);
    let b = json_text::compact(w);
    lemma_compact_begins(v);
    lemma_compact_begins(w);
    assert((a + x)[0] == a[0]);
    assert((b + y)[0] == b[0]);
    match v {
        JsonView::Null => {
            lemma_split_equal(a, b, x, y);
        },
        JsonView::Bool(_) => {
            lemma_split_equal(a, b, x, y);
        },
        JsonView::Number(n) => {
            lemma_number_is_delimited(n, w->Number_0, x, y);
        },
        JsonView::Text(s) => {
            law_quoted_text_is_delimited(s, w->Text_0, x, y);
        },
        JsonView::Array(items) => {
            let others = w->Array_0;
            assert(a + x =~= seq!['['] + array_rest(items, x));
            assert(b + y =~= seq!['['] + array_rest(others, y));
            lemma_split_equal(seq!['['], seq!['['], array_rest(items, x), array_rest(others, y));
            lemma_items_are_delimited(items, others, x, y);
        },
        JsonView::Object(fields) => {
            let others = w->Object_0;
            assert(a + x =~= seq!['{'] + object_rest(fields, x));
            assert(b + y =~= seq!['{'] + object_rest(others, y));
            lemma_split_equal(seq!['{'], seq!['{'], object_rest(fields, x), object_rest(others, y));
            lemma_fields_are_delimited(fields, others, x, y);
        },
    }
}

proof fn lemma_items_are_delimited(
    items: Seq<JsonView>,
    others: Seq<JsonView>,
    x: Seq<char>,
    y: Seq<char>,
)
    requires
        forall|i: int| 0 <= i < items.len() ==> well_formed(#[trigger] items[i]),
        forall|i: int| 0 <= i < others.len() ==> well_formed(#[trigger] others[i]),
        array_rest(items, x) == array_rest(others, y),
    ensures
        items == others,
        x == y,
    decreases items,
{
    let empty = Seq::<char>::empty();
    if items.len() == 0 {
        assert(array_rest(items, x) =~= seq![']'] + x);
    }
    if others.len() == 0 {
        assert(array_rest(others, y) =~= seq![']'] + y);
    }
    if items.len() == 0 && others.len() == 0 {
        lemma_split_equal(seq![']'], seq![']'], x, y);
        assert(items =~= others);
    } else if items.len() == 0 {
        lemma_array_rest(others, y);
        lemma_compact_begins(others[0]);
        assert(array_rest(others, y)[0] == json_text::compact(others[0])[0]);
    } else if others.len() == 0 {
        lemma_array_rest(items, x);
        lemma_compact_begins(items[0]);
        assert(array_rest(items, x)[0] == json_text::compact(items[0])[0]);
    } else {
        lemma_array_rest(items, x);
        lemma_array_rest(others, y);
        let ra = after_first_item(items, x);
        let rb = after_first_item(others, y);
        law_compact_text_is_delimited(items[0], others[0], ra, rb);
        if items.len() == 1 && others.len() == 1 {
            lemma_split_equal(seq![']'], seq![']'], x, y);
            assert(items =~= others);
        } else if items.len() == 1 {
            assert(ra[0] == ']' && rb[0] == ',');
        } else if others.len() == 1 {
            assert(ra[0] == ',' && rb[0] == ']');
        } else {
            let ia = items.drop_first();
            let ib = others.drop_first();
            lemma_split_equal(seq![','], seq![','], array_rest(ia, x), array_rest(ib, y));
            assert forall|i: int| 0 <= i < ia.len() implies well_formed(#[trigger] ia[i]) by {
                assert(ia[i] == items[i + 1]);
            }
            assert forall|i: int| 0 <= i < ib.len() implies well_formed(#[trigger] ib[i]) by {
                assert(ib[i] == others[i + 1]);
            }
            lemma_items_are_delimited(ia, ib, x, y);
            assert(items =~= seq![items[0]] + ia);
            assert(others =~= seq![others[0]] + ib);
        }
    }
}

proof fn lemma_fields_are_delimited(
    fields: Seq<FieldView>,
    others: Seq<FieldView>,
    x: Seq<char>,
    y: Seq<char>,
)
    requires
        forall|i: int| 0 <= i < fields.len() ==> well_formed((#[trigger] fields[i]).value),
        forall|i: int| 0 <= i < others.len() ==> well_formed((#[trigger] others[i]).value),
        object_rest(fields, x) == object_rest(others, y),
    ensures
        fields == others,
        x == y,
    decreases fields,
{
    if fields.len() == 0 {
        assert(object_rest(fields, x) =~= seq!['}'] + x);
    }
    if others.len() == 0 {
        assert(object_rest(others, y) =~= seq!['}'] + y);
    }
    if fields.len() == 0 && others.len() == 0 {
        lemma_split_equal(seq!['}'], seq!['}'], x, y);
        assert(fields =~= others);
    } else if fields.len() == 0 {
        lemma_object_rest(others, y);
        assert(object_rest(others, y)[0] == '"');
    } else if others.len() == 0 {
        lemma_object_rest(fields, x);
        assert(object_rest(fields, x)[0] == '"');
    } else {
        lemma_object_rest(fields, x);
        lemma_object_rest(others, y);
        let ra = after_first_field(fields, x);
        let rb = after_first_field(others, y);
        let va = json_text::compact(fields[0].value) + ra;
        let vb = json_text::compact(others[0].value) + rb;
        law_quoted_text_is_delimited(
            fields[0].key,
            others[0].key,
            seq![':'] + va,
            seq![':'] + vb,
        );
        lemma_split_equal(seq![':'], seq![':'], va, vb);
        law_compact_text_is_delimited(fields[0].value, others[0].value, ra, rb);
        if fields.len() == 1 && others.len() == 1 {
            lemma_split_equal(seq!['}'], seq!['}'], x, y);
            assert(fields =~= others);
        } else if fields.len() == 1 {
            assert(ra[0] == '}' && rb[0] == ',');
        } else if others.len() == 1 {
            assert(ra[0] == ',' && rb[0] == '}');
        } else {
            let fa = fields.drop_first();
            let fb = others.drop_first();
            lemma_split_equal(seq![','], seq![','], object_rest(fa, x), object_rest(fb, y));
            assert forall|i: int| 0 <= i < fa.len() implies well_formed(
                (#[trigger] fa[i]).value,
            ) by {
                assert(fa[i] == fields[i + 1]);
            }
            assert forall|i: int| 0 <= i < fb.len() implies well_formed(
                (#[trigger] fb[i]).value,
            ) by {
                assert(fb[i] == others[i + 1]);
            }
            lemma_fields_are_delimited(fa, fb, x, y);
            assert(fields =~= seq![fields[0]] + fa);
            assert(others =~= seq![others[0]] + fb);
        }
    }
}

// ---------------------------------------------------------------------------
// Canonical texts
// ---------------------------------------------------------------------------

/// `sorted` with `f` put behind every field whose key does not stand after that of `f`.
pub open spec fn insert_field(sorted: Seq<FieldView>, f: FieldView) -> Seq<FieldView>
    decreases sorted.len(),
{
    if sorted.len() == 0 || text::text_le(sorted.last().key, f.key) {
        sorted.push(f)
    } else {
        insert_field(sorted.drop_last(), f).push(sorted.last())
    }
}

/// The fields in the order of their keys; those with equal keys keep their order.
pub open spec fn sorted_fields(fields: Seq<FieldView>) -> Seq<FieldView>
    decreases fields.len(),
{
    if fields.len() == 0 {
        Seq::empty()
    } else {
        insert_field(sorted_fields(fields.drop_last()), fields.last())
    }
}

/// A value with the fields of every object in it in the order of their keys.
pub open spec fn normal(v: JsonView) -> JsonView
    decreases v,
{
    match v {
        JsonView::Array(items) => JsonView::Array(normal_items(items)),
        JsonView::Object(fields) => JsonView::Object(sorted_fields(normal_fields(fields))),
        _ => v,
    }
}

pub open spec fn normal_items(items: Seq<JsonView>) -> Seq<JsonView>
    decreases items,
{
    if items.len() == 0 {
        Seq::empty()
    } else {
        normal_items(items.drop_last()).push(normal(items.last()))
    }
}

pub open spec fn normal_fields(fields: Seq<FieldView>) -> Seq<FieldView>
    decreases fields,
{
    if fields.len() == 0 {
        Seq::empty()
    } else {
        normal_fields(fields.drop_last()).push(
            FieldView { key: fields.last().key, value: normal(fields.last().value) },
        )
    }
}

/// A field written compactly.
spec fn written(f: FieldView) -> WrittenView {
    WrittenView { key: f.key, text: compact_field(f) }
}

spec fn written_compactly(fields: Seq<FieldView>) -> Seq<WrittenView> {
    fields.map_values(|f: FieldView| written(f))
}

proof fn lemma_insert_written(sorted: Seq<FieldView>, f: FieldView)
    ensures
        json_text::insert_by_key(written_compactly(sorted), written(f)) == written_compactly(
            insert_field(sorted, f),
        ),
    decreases sorted.len(),
{
    if sorted.len() == 0 || text::text_le(sorted.last().key, f.key) {
        assert(written_compactly(sorted.push(f)) =~= written_compactly(sorted).push(written(f)));
    } else {
        lemma_insert_written(sorted.drop_last(), f);
        assert(written_compactly(sorted).drop_last() =~= written_compactly(sorted.drop_last()));
        assert(written_compactly(insert_field(sorted, f)) =~= written_compactly(
            insert_field(sorted.drop_last(), f),
        ).push(written(sorted.last())));
    }
}

proof fn lemma_sorted_written(fields: Seq<FieldView>)
    ensures
        json_text::sorted_by_key(written_compactly(fields)) == written_compactly(
            sorted_fields(fields),
        ),
    decreases fields.len(),
{
    if fields.len() > 0 {
        lemma_sorted_written(fields.drop_last());
        lemma_insert_written(sorted_fields(fields.drop_last()), fields.last());
        assert(written_compactly(fields).drop_last() =~= written_compactly(fields.drop_last()));
    } else {
        assert(written_compactly(fields) =~= Seq::empty());
        assert(written_compactly(sorted_fields(fields)) =~= Seq::empty());
    }
}

/// The canonical text of a value is the compact text of its normal form.
pub proof fn law_canonical_is_compact_of_normal(v: JsonView)
    ensures
        json_text::canonical(v) == json_text::compact(normal(v)),
    decreases v,
{
    match v {
        JsonView::Array(items) => {
            lemma_canonical_items(items);
        },
        JsonView::Object(fields) => {
            lemma_written_fields(fields);
            let nf = normal_fields(fields);
            lemma_sorted_written(nf);
            lemma_compact_fields(sorted_fields(nf));
            assert(json_text::written_texts(written_compactly(sorted_fields(nf)))
                =~= json_text::compact_fields(sorted_fields(nf)));
        },
        _ => {},
    }
}

proof fn lemma_canonical_items(items: Seq<JsonView>)
    ensures
        json_text::canonical_items(items) == json_text::compact_items(normal_items(items)),
    decreases items,
{
    if items.len() > 0 {
        lemma_canonical_items(items.drop_last());
        law_canonical_is_compact_of_normal(items.last());
        assert(normal_items(items).drop_last() =~= normal_items(items.drop_last()));
    }
}

proof fn lemma_written_fields(fields: Seq<FieldView>)
    ensures
        json_text::written_fields(fields) == written_compactly(normal_fields(fields)),
    decreases fields,
{
    if fields.len() > 0 {
        lemma_written_fields(fields.drop_last());
        law_canonical_is_compact_of_normal(fields.last().value);
        assert(written_compactly(normal_fields(fields)) =~= written_compactly(
            normal_fields(fields.drop_last()),
        ).push(written(normal_fields(fields).last())));
    } else {
        assert(written_compactly(normal_fields(fields)) =~= Seq::empty());
    }
}

/// Sorting keeps every field.
pub proof fn lemma_insert_field_members(sorted: Seq<FieldView>, f: FieldView, i: int)
    requires
        0 <= i < insert_field(sorted, f).len(),
    ensures
        insert_field(sorted, f)[i] == f || sorted.contains(insert_field(sorted, f)[i]),
        insert_field(sorted, f).len() == sorted.len() + 1,
    decreases sorted.len(),
{
    if sorted.len() == 0 || text::text_le(sorted.last().key, f.key) {
        if i < sorted.len() {
            assert(sorted.contains(sorted[i]));
        }
    } else {
        let front = insert_field(sorted.drop_last(), f);
        if i < front.len() {
            lemma_insert_field_members(sorted.drop_last(), f, i);
            if front[i] != f {
                let j = choose|j: int|
                    0 <= j < sorted.drop_last().len() && sorted.drop_last()[j] == front[i];
                assert(sorted[j] == front[i]);
            }
        } else {
            lemma_insert_field_members(sorted.drop_last(), f, 0);
            assert(sorted.contains(sorted.last()));
        }
    }
}

pub proof fn lemma_sorted_fields_members(fields: Seq<FieldView>, i: int)
    requires
        0 <= i < sorted_fields(fields).len(),
    ensures
        fields.contains(sorted_fields(fields)[i]),
    decreases fields.len(),
{
    if fields.len() > 0 {
        let front = sorted_fields(fields.drop_last());
        lemma_insert_field_members(front, fields.last(), i);
        let f = sorted_fields(fields)[i];
        if f == fields.last() {
            assert(fields[fields.len() - 1] == f);
        } else {
            let j = choose|j: int| 0 <= j < front.len() && front[j] == f;
            lemma_sorted_fields_members(fields.drop_last(), j);
            let k = choose|k: int|
                0 <= k < fields.drop_last().len() && fields.drop_last()[k] == f;
            assert(fields[k] == f);
        }
    }
}

/// The normal form of a well-formed value is well-formed.
pub proof fn lemma_normal_is_well_formed(v: JsonView)
    requires
        well_formed(v),
    ensures
        well_formed(normal(v)),
    decreases v,
{
    match v {
        JsonView::Array(items) => {
            lemma_normal_items(items);
        },
        JsonView::Object(fields) => {
            let nf = normal_fields(fields);
            let sorted = sorted_fields(nf);
            lemma_normal_fields(fields);
            assert forall|i: int| 0 <= i < sorted.len() implies well_formed(
                (#[trigger] sorted[i]).value,
            ) by {
                lemma_sorted_fields_members(nf, i);
                let j = choose|j: int| 0 <= j < nf.len() && nf[j] == sorted[i];
                assert(well_formed(nf[j].value));
            }
        },
        _ => {},
    }
}

proof fn lemma_normal_items(items: Seq<JsonView>)
    requires
        forall|i: int| 0 <= i < items.len() ==> well_formed(#[trigger] items[i]),
    ensures
        normal_items(items).len() == items.len(),
        forall|i: int|
            0 <= i < items.len() ==> #[trigger] normal_items(items)[i] == normal(items[i])
                && well_formed(normal_items(items)[i]),
    decreases items,
{
    if items.len() > 0 {
        let front = items.drop_last();
        assert forall|i: int| 0 <= i < front.len() implies well_formed(#[trigger] front[i]) by {
            assert(front[i] == items[i]);
        }
        lemma_normal_items(front);
        assert(well_formed(items[items.len() - 1]));
        lemma_normal_is_well_formed(items.last());
    }
}

proof fn lemma_normal_fields(fields: Seq<FieldView>)
    requires
        forall|i: int| 0 <= i < fields.len() ==> well_formed((#[trigger] fields[i]).value),
    ensures
        normal_fields(fields).len() == fields.len(),
        forall|i: int|
            0 <= i < fields.len() ==> (#[trigger] normal_fields(fields)[i]).key == fields[i].key
                && well_formed(normal_fields(fields)[i].value),
    decreases fields,
{
    if fields.len() > 0 {
        let front = fields.drop_last();
        assert forall|i: int| 0 <= i < front.len() implies well_formed(
            (#[trigger] front[i]).value,
        ) by {
            assert(front[i] == fields[i]);
        }
        lemma_normal_fields(front);
        assert(well_formed(fields[fields.len() - 1].value));
        lemma_normal_is_well_formed(fields.last().value);
    }
}

/// The canonical text of a value determines the value up to the order of fields, and can be told
/// from what follows it, unless the value is a number that what follows carries on.
pub proof fn law_canonical_text_is_delimited(
    v: JsonView,
    w: JsonView,
    x: Seq<char>,
    y: Seq<char>,
)
    requires
        well_formed(v),
        well_formed(w),
        v is Number ==> ends_number(x) && ends_number(y),
        json_text::canonical(v) + x == json_text::canonical(w) + y,
    ensures
        normal(v) == normal(w),
        x == y,
{
    law_canonical_is_compact_of_normal(v);
    law_canonical_is_compact_of_normal(w);
    lemma_normal_is_well_formed(v);
    lemma_normal_is_well_formed(w);
    law_compact_text_is_delimited(normal(v), normal(w), x, y);
}

/// Values have the same canonical text exactly when they are the same up to the order of fields.
pub proof fn law_canonical_text_means_the_same(v: JsonView, w: JsonView)
    requires
        well_formed(v),
        well_formed(w),
    ensures
        json_text::canonical(v) == json_text::canonical(w) <==> normal(v) == normal(w),
{
    law_canonical_is_compact_of_normal(v);
    law_canonical_is_compact_of_normal(w);
    if json_text::canonical(v) == json_text::canonical(w) {
        law_canonical_text_is_delimited(v, w, Seq::empty(), Seq::empty());
    }
}

// ---------------------------------------------------------------------------
// The order of fields
// ---------------------------------------------------------------------------

/// Whether no key occurs twice.
pub open spec fn distinct_keys(fields: Seq<FieldView>) -> bool {
    forall|i: int, j: int|
        0 <= i < j < fields.len() ==> (#[trigger] fields[i]).key != (#[trigger] fields[j]).key
}

/// Fields with different keys may be inserted in either order.
proof fn lemma_insertions_commute(sorted: Seq<FieldView>, f: FieldView, g: FieldView)
    requires
        f.key != g.key,
    ensures
        insert_field(insert_field(sorted, f), g) == insert_field(insert_field(sorted, g), f),
    decreases sorted.len(),
{
    text::lemma_text_le_total(f.key, g.key);
    if sorted.len() == 0 {
        assert(sorted.push(f).drop_last() =~= sorted);
        assert(sorted.push(g).drop_last() =~= sorted);
        reveal_with_fuel(insert_field, 3);
    } else {
        let front = sorted.drop_last();
        let last = sorted.last();
        let le_f = text::text_le(last.key, f.key);
        let le_g = text::text_le(last.key, g.key);
        assert(sorted.push(f).drop_last() =~= sorted);
        assert(sorted.push(g).drop_last() =~= sorted);
        if le_f && le_g {
            reveal_with_fuel(insert_field, 3);
        } else if le_f {
            // `g` stands before `last`, and so before `f`.
            text::lemma_text_le_total(last.key, g.key);
            text::lemma_text_le_transitive(g.key, last.key, f.key);
            let gi = insert_field(front, g);
            assert(insert_field(sorted, g) == gi.push(last));
            assert(insert_field(gi.push(last), f) == gi.push(last).push(f));
            assert(insert_field(sorted, f) == sorted.push(f));
            assert(insert_field(sorted.push(f), g) == insert_field(sorted, g).push(f));
        } else if le_g {
            text::lemma_text_le_total(last.key, f.key);
            text::lemma_text_le_transitive(f.key, last.key, g.key);
            let fi = insert_field(front, f);
            assert(insert_field(sorted, f) == fi.push(last));
            assert(insert_field(fi.push(last), g) == fi.push(last).push(g));
            assert(insert_field(sorted, g) == sorted.push(g));
            assert(insert_field(sorted.push(g), f) == insert_field(sorted, f).push(g));
        } else {
            lemma_insertions_commute(front, f, g);
            let fi = insert_field(front, f);
            let gi = insert_field(front, g);
            assert(fi.push(last).drop_last() =~= fi);
            assert(gi.push(last).drop_last() =~= gi);
        }
    }
}

/// Any field may be inserted last.
pub proof fn lemma_insert_last(fields: Seq<FieldView>, i: int)
    requires
        distinct_keys(fields),
        0 <= i < fields.len(),
    ensures
        sorted_fields(fields) == insert_field(sorted_fields(fields.remove(i)), fields[i]),
    decreases fields.len(),
{
    let last = fields.len() - 1;
    if i == last {
        assert(fields.remove(i) =~= fields.drop_last());
    } else {
        let front = fields.drop_last();
        lemma_insert_last(front, i);
        assert(fields.remove(i).drop_last() =~= front.remove(i));
        assert(fields.remove(i).last() == fields.last());
        assert(fields[i].key != fields[last].key);
        lemma_insertions_commute(sorted_fields(front.remove(i)), fields[i], fields.last());
    }
}

/// Sorting does not depend on the order in which fields with different keys stand.
pub proof fn law_sorting_forgets_the_order(a: Seq<FieldView>, b: Seq<FieldView>)
    requires
        distinct_keys(a),
        distinct_keys(b),
        a.to_multiset() == b.to_multiset(),
    ensures
        sorted_fields(a) == sorted_fields(b),
    decreases a.len(),
{
    broadcast use vstd::seq_lib::group_to_multiset_ensures;

    assert(a.len() == a.to_multiset().len());
    assert(b.len() == b.to_multiset().len());
    if a.len() > 0 {
        let f = a.last();
        assert(a.contains(f));
        assert(b.to_multiset().count(f) > 0);
        let i = choose|i: int| 0 <= i < b.len() && b[i] == f;
        lemma_insert_last(b, i);
        assert(a.drop_last() =~= a.remove(a.len() - 1));
        law_sorting_forgets_the_order(a.drop_last(), b.remove(i));
    }
}

/// The canonical text of an object does not depend on the order of its fields.
pub proof fn law_canonical_forgets_the_order(a: Seq<FieldView>, b: Seq<FieldView>)
    requires
        distinct_keys(a),
        distinct_keys(b),
        a.to_multiset() == b.to_multiset(),
    ensures
        json_text::canonical(JsonView::Object(a)) == json_text::canonical(JsonView::Object(b)),
{
    law_canonical_is_compact_of_normal(JsonView::Object(a));
    law_canonical_is_compact_of_normal(JsonView::Object(b));
    lemma_normal_fields_map(a);
    lemma_normal_fields_map(b);
    let na = normal_fields(a);
    let nb = normal_fields(b);
    assert(na.to_multiset() == nb.to_multiset()) by {
        lemma_normal_multiset(a, b);
    }
    law_sorting_forgets_the_order(na, nb);
}

pub proof fn lemma_normal_fields_map(fields: Seq<FieldView>)
    ensures
        normal_fields(fields).len() == fields.len(),
        forall|i: int|
            0 <= i < fields.len() ==> (#[trigger] normal_fields(fields)[i]) == (FieldView {
                key: fields[i].key,
                value: normal(fields[i].value),
            }),
        distinct_keys(fields) ==> distinct_keys(normal_fields(fields)),
    decreases fields.len(),
{
    if fields.len() > 0 {
        lemma_normal_fields_map(fields.drop_last());
        let n = normal_fields(fields);
        assert forall|i: int| 0 <= i < fields.len() implies (#[trigger] n[i]) == (FieldView {
            key: fields[i].key,
            value: normal(fields[i].value),
        }) by {
            if i < fields.len() - 1 {
                assert(n[i] == normal_fields(fields.drop_last())[i]);
            }
        }
        if distinct_keys(fields) {
            assert forall|i: int, j: int| 0 <= i < j < n.len() implies (#[trigger] n[i]).key != (
            #[trigger] n[j]).key by {
                assert(fields[i].key != fields[j].key);
            }
        }
    }
}

/// Values that are the same before normal forms are taken are the same afterwards.
proof fn lemma_normal_multiset(a: Seq<FieldView>, b: Seq<FieldView>)
    requires
        a.to_multiset() == b.to_multiset(),
    ensures
        normal_fields(a).to_multiset() == normal_fields(b).to_multiset(),
    decreases a.len(),
{
    broadcast use vstd::seq_lib::group_to_multiset_ensures;

    assert(a.len() == a.to_multiset().len());
    assert(b.len() == b.to_multiset().len());
    if a.len() > 0 {
        let f = a.last();
        assert(a.contains(f));
        assert(b.to_multiset().count(f) > 0);
        let i = choose|i: int| 0 <= i < b.len() && b[i] == f;
        assert(a.drop_last() =~= a.remove(a.len() - 1));
        lemma_normal_multiset(a.drop_last(), b.remove(i));
        lemma_normal_fields_map(a);
        lemma_normal_fields_map(b);
        lemma_normal_fields_map(b.remove(i));
        let na = normal_fields(a);
        let nb = normal_fields(b);
        assert(na.remove(a.len() - 1) =~= normal_fields(a.drop_last()));
        assert(nb.remove(i) =~= normal_fields(b.remove(i)));
        assert(na[a.len() - 1] == nb[i]);
        let g = nb[i];
        assert(na =~= na.remove(a.len() - 1).insert(a.len() - 1, g));
        assert(nb =~= nb.remove(i).insert(i, g));
    } else {
        assert(normal_fields(a) =~= normal_fields(b));
    }
}

} // verus!
