//! JSON values.

use vstd::prelude::*;

verus! {

/// A JSON value.
///
/// A number is held as its JSON text. The fields of an object stand in the order in which the
/// object is iterated.
#[derive(Debug)]
pub enum Json {
    Null,
    Bool(bool),
    Number(String),
    Text(String),
    Array(Vec<Json>),
    Object(Vec<JsonField>),
}

/// One field of an object.
#[derive(Debug)]
pub struct JsonField {
    pub key: String,
    pub value: Json,
}

/// What a [`Json`] holds.
#[verifier::ext_equal]
pub enum JsonView {
    Null,
    Bool(bool),
    Number(Seq<char>),
    Text(Seq<char>),
    Array(Seq<JsonView>),
    Object(Seq<FieldView>),
}

/// What a [`JsonField`] holds.
#[verifier::ext_equal]
pub struct FieldView {
    pub key: Seq<char>,
    pub value: JsonView,
}

pub open spec fn json_view(v: Json) -> JsonView
    decreases v,
{
    match v {
        Json::Null => JsonView::Null,
        Json::Bool(b) => JsonView::Bool(b),
        Json::Number(s) => JsonView::Number(s@),
        Json::Text(s) => JsonView::Text(s@),
        Json::Array(items) => JsonView::Array(
            Seq::new(
                items@.len(),
                |i: int|
                    if 0 <= i < items@.len() {
                        json_view(items@[i])
                    } else {
                        JsonView::Null
                    },
            ),
        ),
        Json::Object(fields) => JsonView::Object(
            Seq::new(
                fields@.len(),
                |i: int|
                    if 0 <= i < fields@.len() {
                        FieldView { key: fields@[i].key@, value: json_view(fields@[i].value) }
                    } else {
                        FieldView { key: Seq::empty(), value: JsonView::Null }
                    },
            ),
        ),
    }
}

impl View for Json {
    type V = JsonView;

    open spec fn view(&self) -> JsonView {
        json_view(*self)
    }
}

impl View for JsonField {
    type V = FieldView;

    open spec fn view(&self) -> FieldView {
        FieldView { key: self.key@, value: self.value@ }
    }
}

/// What the items of an array hold.
pub open spec fn items_view(items: Seq<Json>) -> Seq<JsonView> {
    items.map_values(|v: Json| v@)
}

/// What the fields of an object hold.
pub open spec fn fields_view(fields: Seq<JsonField>) -> Seq<FieldView> {
    fields.map_values(|f: JsonField| f@)
}

pub broadcast proof fn lemma_array_view(items: Vec<Json>)
    ensures
        #[trigger] Json::Array(items)@ == JsonView::Array(items_view(items@)),
{
    assert(Json::Array(items)@->Array_0 =~= items_view(items@));
}

pub broadcast proof fn lemma_object_view(fields: Vec<JsonField>)
    ensures
        #[trigger] Json::Object(fields)@ == JsonView::Object(fields_view(fields@)),
{
    assert(Json::Object(fields)@->Object_0 =~= fields_view(fields@));
}

pub broadcast proof fn lemma_items_view_push(items: Seq<Json>, v: Json)
    ensures
        #[trigger] items_view(items.push(v)) == items_view(items).push(v@),
{
    assert(items_view(items.push(v)) =~= items_view(items).push(v@));
}

pub broadcast proof fn lemma_fields_view_push(fields: Seq<JsonField>, f: JsonField)
    ensures
        #[trigger] fields_view(fields.push(f)) == fields_view(fields).push(f@),
{
    assert(fields_view(fields.push(f)) =~= fields_view(fields).push(f@));
}

/// How the views of arrays and objects follow from those of their parts.
pub broadcast group group_json_view {
    lemma_array_view,
    lemma_object_view,
    lemma_items_view_push,
    lemma_fields_view_push,
}

/// The items of an array are smaller than the array.
pub proof fn lemma_item_smaller(items: Seq<JsonView>, i: int)
    requires
        0 <= i < items.len(),
    ensures
        decreases_to!(JsonView::Array(items) => items[i]),
{
    let v = JsonView::Array(items);
    assert(decreases_to!(v => v->Array_0));
    assert(decreases_to!(items => items[i]));
}

/// The values of an object's fields are smaller than the object.
pub proof fn lemma_value_smaller(fields: Seq<FieldView>, i: int)
    requires
        0 <= i < fields.len(),
    ensures
        decreases_to!(JsonView::Object(fields) => fields[i].value),
{
    let v = JsonView::Object(fields);
    assert(decreases_to!(v => v->Object_0));
    assert(decreases_to!(fields => fields[i]));
    assert(decreases_to!(fields[i] => fields[i].value));
}

/// A copy of `v`.
fn copy_of(v: &Json) -> (r: Json)
    ensures
        r@ == v@,
    decreases v@,
{
    broadcast use group_json_view;

    match v {
        Json::Null => Json::Null,
        Json::Bool(b) => Json::Bool(*b),
        Json::Number(s) => Json::Number(s.clone()),
        Json::Text(s) => Json::Text(s.clone()),
        Json::Array(items) => {
            let mut out: Vec<Json> = Vec::new();
            let mut i: usize = 0;
            while i < items.len()
                invariant
                    i <= items@.len(),
                    v@ == JsonView::Array(items_view(items@)),
                    items_view(out@) == items_view(items@).take(i as int),
                decreases items@.len() - i,
            {
                broadcast use group_json_view;

                proof {
                    lemma_item_smaller(items_view(items@), i as int);
                }
                let item = copy_of(&items[i]);
                out.push(item);
                assert(items_view(out@) =~= items_view(items@).take(i + 1));
                i = i + 1;
            }
            assert(items_view(out@) =~= items_view(items@));
            Json::Array(out)
        },
        Json::Object(fields) => {
            let mut out: Vec<JsonField> = Vec::new();
            let mut i: usize = 0;
            while i < fields.len()
                invariant
                    i <= fields@.len(),
                    v@ == JsonView::Object(fields_view(fields@)),
                    fields_view(out@) == fields_view(fields@).take(i as int),
                decreases fields@.len() - i,
            {
                broadcast use group_json_view;

                proof {
                    lemma_value_smaller(fields_view(fields@), i as int);
                }
                let field = JsonField {
                    key: fields[i].key.clone(),
                    value: copy_of(&fields[i].value),
                };
                out.push(field);
                assert(fields_view(out@) =~= fields_view(fields@).take(i + 1));
                i = i + 1;
            }
            assert(fields_view(out@) =~= fields_view(fields@));
            Json::Object(out)
        },
    }
}

impl Clone for Json {
    fn clone(&self) -> (r: Self)
        ensures
            r@ == self@,
    {
        copy_of(self)
    }
}

} // verus!
