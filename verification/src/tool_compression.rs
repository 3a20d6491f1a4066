//! Making tool definitions smaller.

use vstd::prelude::*;

use crate::binary64;
use crate::conversation;
use crate::conversation::{InputSchema, Tool, ToolSpecification, ToolView};
use crate::json;
use crate::json::{FieldView, Json, JsonField, JsonView};
use crate::json_text;
use crate::text;
use crate::truncation;

verus! {

broadcast use {json::group_json_view, vstd::string::group_string_axioms};

/// The characters of a description that are always kept.
pub const MIN_DESCRIPTION_CHARS: usize = 50;

// ---------------------------------------------------------------------------
// Schemas
// ---------------------------------------------------------------------------

/// Keywords whose value is an object of schemas. A value of `dependencies` may also be a list of
/// names, which is no schema and stays as it is.
pub open spec fn holds_schema_map(key: Seq<char>) -> bool {
    ||| key == "properties"@
    ||| key == "patternProperties"@
    ||| key == "$defs"@
    ||| key == "definitions"@
    ||| key == "dependentSchemas"@
    ||| key == "dependencies"@
}

/// Keywords whose value is an array of schemas.
pub open spec fn holds_schema_array(key: Seq<char>) -> bool {
    ||| key == "oneOf"@
    ||| key == "anyOf"@
    ||| key == "allOf"@
    ||| key == "prefixItems"@
}

/// Keywords whose value is a schema.
pub open spec fn holds_schema(key: Seq<char>) -> bool {
    ||| key == "items"@
    ||| key == "additionalProperties"@
    ||| key == "additionalItems"@
    ||| key == "unevaluatedProperties"@
    ||| key == "unevaluatedItems"@
    ||| key == "not"@
    ||| key == "if"@
    ||| key == "then"@
    ||| key == "else"@
    ||| key == "propertyNames"@
    ||| key == "contains"@
}

/// A schema without descriptions, its own and those of the schemas in it. What is no object is no
/// schema and stays as it is.
pub open spec fn simplified(v: JsonView) -> JsonView
    decreases v,
{
    match v {
        JsonView::Object(fields) => JsonView::Object(simplified_fields(fields)),
        _ => v,
    }
}

/// The fields of a schema without its description, and with the schemas in them simplified.
pub open spec fn simplified_fields(fields: Seq<FieldView>) -> Seq<FieldView>
    decreases fields,
{
    if fields.len() == 0 {
        Seq::empty()
    } else {
        let before = simplified_fields(fields.drop_last());
        let f = fields.last();
        if f.key == "description"@ {
            before
        } else if holds_schema_map(f.key) {
            before.push(FieldView { key: f.key, value: simplified_map(f.value) })
        } else if holds_schema_array(f.key) {
            before.push(FieldView { key: f.key, value: simplified_array(f.value) })
        } else if holds_schema(f.key) {
            before.push(FieldView { key: f.key, value: simplified(f.value) })
        } else {
            before.push(f)
        }
    }
}

/// An object of schemas, each simplified.
pub open spec fn simplified_map(v: JsonView) -> JsonView
    decreases v,
{
    match v {
        JsonView::Object(fields) => JsonView::Object(simplified_values(fields)),
        _ => v,
    }
}

pub open spec fn simplified_values(fields: Seq<FieldView>) -> Seq<FieldView>
    decreases fields,
{
    if fields.len() == 0 {
        Seq::empty()
    } else {
        simplified_values(fields.drop_last()).push(
            FieldView { key: fields.last().key, value: simplified(fields.last().value) },
        )
    }
}

/// An array of schemas, each simplified.
pub open spec fn simplified_array(v: JsonView) -> JsonView
    decreases v,
{
    match v {
        JsonView::Array(items) => JsonView::Array(simplified_items(items)),
        _ => v,
    }
}

pub open spec fn simplified_items(items: Seq<JsonView>) -> Seq<JsonView>
    decreases items,
{
    if items.len() == 0 {
        Seq::empty()
    } else {
        simplified_items(items.drop_last()).push(simplified(items.last()))
    }
}

fn is_schema_map_keyword(key: &str) -> (r: bool)
    ensures
        r == holds_schema_map(key@),
{
    text::same_text(key, "properties") || text::same_text(key, "patternProperties")
        || text::same_text(key, "$defs") || text::same_text(key, "definitions") || text::same_text(
        key,
        "dependentSchemas",
    ) || text::same_text(key, "dependencies")
}

fn is_schema_array_keyword(key: &str) -> (r: bool)
    ensures
        r == holds_schema_array(key@),
{
    text::same_text(key, "oneOf") || text::same_text(key, "anyOf") || text::same_text(key, "allOf")
        || text::same_text(key, "prefixItems")
}

fn is_schema_keyword(key: &str) -> (r: bool)
    ensures
        r == holds_schema(key@),
{
    text::same_text(key, "items") || text::same_text(key, "additionalProperties")
        || text::same_text(key, "additionalItems") || text::same_text(key, "unevaluatedProperties")
        || text::same_text(key, "unevaluatedItems") || text::same_text(key, "not")
        || text::same_text(key, "if") || text::same_text(key, "then") || text::same_text(
        key,
        "else",
    ) || text::same_text(key, "propertyNames") || text::same_text(key, "contains")
}

/// A schema without descriptions.
pub fn simplify_json_schema(schema: &Json) -> (r: Json)
    ensures
        r@ == simplified(schema@),
    decreases schema@,
{
    match schema {
        Json::Object(fields) => {
            let mut out: Vec<JsonField> = Vec::new();
            let mut i: usize = 0;
            let ghost all = json::fields_view(fields@);
            while i < fields.len()
                invariant
                    i <= fields@.len(),
                    all == json::fields_view(fields@),
                    schema@ == JsonView::Object(all),
                    json::fields_view(out@) == simplified_fields(all.take(i as int)),
                decreases fields@.len() - i,
            {
                proof {
                    json::lemma_value_smaller(all, i as int);
                    assert(all.take(i + 1).drop_last() =~= all.take(i as int));
                    assert(all.take(i + 1).last() == fields@[i as int]@);
                }
                let key = fields[i].key.as_str();
                if !text::same_text(key, "description") {
                    let value = if is_schema_map_keyword(key) {
                        simplify_schema_map(&fields[i].value)
                    } else if is_schema_array_keyword(key) {
                        simplify_schema_array(&fields[i].value)
                    } else if is_schema_keyword(key) {
                        simplify_json_schema(&fields[i].value)
                    } else {
                        fields[i].value.clone()
                    };
                    out.push(JsonField { key: fields[i].key.clone(), value });
                }
                i = i + 1;
            }
            assert(all.take(i as int) =~= all);
            Json::Object(out)
        },
        _ => schema.clone(),
    }
}

/// An object of schemas, each without descriptions.
fn simplify_schema_map(value: &Json) -> (r: Json)
    ensures
        r@ == simplified_map(value@),
    decreases value@,
{
    match value {
        Json::Object(fields) => {
            let mut out: Vec<JsonField> = Vec::new();
            let mut i: usize = 0;
            let ghost all = json::fields_view(fields@);
            while i < fields.len()
                invariant
                    i <= fields@.len(),
                    all == json::fields_view(fields@),
                    value@ == JsonView::Object(all),
                    json::fields_view(out@) == simplified_values(all.take(i as int)),
                decreases fields@.len() - i,
            {
                proof {
                    json::lemma_value_smaller(all, i as int);
                    assert(all.take(i + 1).drop_last() =~= all.take(i as int));
                }
                let schema = simplify_json_schema(&fields[i].value);
                out.push(JsonField { key: fields[i].key.clone(), value: schema });
                i = i + 1;
            }
            assert(all.take(i as int) =~= all);
            Json::Object(out)
        },
        _ => value.clone(),
    }
}

/// An array of schemas, each without descriptions.
fn simplify_schema_array(value: &Json) -> (r: Json)
    ensures
        r@ == simplified_array(value@),
    decreases value@,
{
    match value {
        Json::Array(items) => {
            let mut out: Vec<Json> = Vec::new();
            let mut i: usize = 0;
            let ghost all = json::items_view(items@);
            while i < items.len()
                invariant
                    i <= items@.len(),
                    all == json::items_view(items@),
                    value@ == JsonView::Array(all),
                    json::items_view(out@) == simplified_items(all.take(i as int)),
                decreases items@.len() - i,
            {
                proof {
                    json::lemma_item_smaller(all, i as int);
                    assert(all.take(i + 1).drop_last() =~= all.take(i as int));
                }
                let schema = simplify_json_schema(&items[i]);
                out.push(schema);
                i = i + 1;
            }
            assert(all.take(i as int) =~= all);
            Json::Array(out)
        },
        _ => value.clone(),
    }
}

// ---------------------------------------------------------------------------
// Sizes
// ---------------------------------------------------------------------------

/// The bytes of a tool definition: its name, its description and the text of its schema.
pub open spec fn tool_bytes(t: ToolView) -> nat {
    text::utf8_len(t.name) + text::utf8_len(t.description) + text::utf8_len(
        json_text::compact(t.schema),
    )
}

/// The bytes of some tool definitions.
pub open spec fn tools_bytes(tools: Seq<ToolView>) -> nat
    decreases tools.len(),
{
    if tools.len() == 0 {
        0
    } else {
        tools_bytes(tools.drop_last()) + tool_bytes(tools.last())
    }
}

proof fn lemma_tools_bytes_take(tools: Seq<ToolView>, i: int)
    requires
        0 <= i <= tools.len(),
    ensures
        tools_bytes(tools.take(i)) <= tools_bytes(tools),
    decreases tools.len() - i,
{
    if i < tools.len() {
        assert(tools.take(i + 1).drop_last() =~= tools.take(i));
        lemma_tools_bytes_take(tools, i + 1);
    } else {
        assert(tools.take(i) =~= tools);
    }
}

/// The bytes of some tool definitions.
pub fn estimate_tools_size(tools: &[Tool]) -> (r: usize)
    requires
        tools_bytes(conversation::tools_view(tools@)) <= usize::MAX,
    ensures
        r == tools_bytes(conversation::tools_view(tools@)),
{
    let mut size: usize = 0;
    let mut i: usize = 0;
    let ghost all = conversation::tools_view(tools@);
    while i < tools.len()
        invariant
            i <= tools@.len(),
            all == conversation::tools_view(tools@),
            tools_bytes(all) <= usize::MAX,
            size == tools_bytes(all.take(i as int)),
        decreases tools@.len() - i,
    {
        proof {
            assert(all.take(i + 1).drop_last() =~= all.take(i as int));
            lemma_tools_bytes_take(all, i + 1);
        }
        let definition = &tools[i].tool_specification;
        let schema = json_text::compact_json(&definition.input_schema.json);
        size = size + (text::byte_len(definition.name.as_str()) + text::byte_len(
            definition.description.as_str(),
        ) + text::byte_len(schema.as_str()));
        i = i + 1;
    }
    assert(all.take(i as int) =~= all);
    size
}

/// The bytes of an object's text.
proof fn lemma_object_bytes(fields: Seq<FieldView>)
    ensures
        text::utf8_len(json_text::compact(JsonView::Object(fields))) == if fields.len() == 0 {
            2
        } else {
            text::byte_weight(json_text::compact_fields(fields)) + 1
        },
        json_text::compact_fields(fields).len() == fields.len(),
    decreases fields.len(),
{
    lemma_compact_fields_len(fields);
    let parts = json_text::compact_fields(fields);
    let inner = text::join(parts, seq![',']);
    text::lemma_ascii_byte('{');
    text::lemma_ascii_byte('}');
    text::lemma_join_bytes(parts, ',');
    text::lemma_encode_concat(seq!['{'], inner);
    text::lemma_encode_concat(seq!['{'] + inner, seq!['}']);
}

proof fn lemma_compact_fields_len(fields: Seq<FieldView>)
    ensures
        json_text::compact_fields(fields).len() == fields.len(),
    decreases fields.len(),
{
    if fields.len() > 0 {
        lemma_compact_fields_len(fields.drop_last());
    }
}

/// The bytes of an array's text.
proof fn lemma_array_bytes(items: Seq<JsonView>)
    ensures
        text::utf8_len(json_text::compact(JsonView::Array(items))) == if items.len() == 0 {
            2
        } else {
            text::byte_weight(json_text::compact_items(items)) + 1
        },
{
    lemma_compact_items_len(items);
    let parts = json_text::compact_items(items);
    let inner = text::join(parts, seq![',']);
    text::lemma_ascii_byte('[');
    text::lemma_ascii_byte(']');
    text::lemma_join_bytes(parts, ',');
    text::lemma_encode_concat(seq!['['], inner);
    text::lemma_encode_concat(seq!['['] + inner, seq![']']);
}

proof fn lemma_compact_items_len(items: Seq<JsonView>)
    ensures
        json_text::compact_items(items).len() == items.len(),
    decreases items.len(),
{
    if items.len() > 0 {
        lemma_compact_items_len(items.drop_last());
    }
}

/// One more field in an object's text.
proof fn lemma_field_bytes(fields: Seq<FieldView>, f: FieldView)
    ensures
        text::byte_weight(json_text::compact_fields(fields.push(f))) == text::byte_weight(
            json_text::compact_fields(fields),
        ) + text::utf8_len(json_text::quoted(f.key)) + text::utf8_len(json_text::compact(f.value))
            + 2,
{
    let key = json_text::quoted(f.key);
    let value = json_text::compact(f.value);
    assert(fields.push(f).drop_last() =~= fields);
    text::lemma_byte_weight_push(json_text::compact_fields(fields), key + seq![':'] + value);
    text::lemma_ascii_byte(':');
    text::lemma_encode_concat(key, seq![':']);
    text::lemma_encode_concat(key + seq![':'], value);
}

/// Simplifying a schema does not make its text longer.
pub proof fn law_simplified_is_not_longer(v: JsonView)
    ensures
        text::utf8_len(json_text::compact(simplified(v))) <= text::utf8_len(json_text::compact(v)),
    decreases v,
{
    match v {
        JsonView::Object(fields) => {
            lemma_simplified_fields_bytes(fields);
            lemma_object_bytes(fields);
            lemma_object_bytes(simplified_fields(fields));
            if fields.len() > 0 {
                assert(fields =~= fields.drop_last().push(fields.last()));
                lemma_field_bytes(fields.drop_last(), fields.last());
            }
        },
        _ => {},
    }
}

proof fn lemma_simplified_fields_bytes(fields: Seq<FieldView>)
    ensures
        text::byte_weight(json_text::compact_fields(simplified_fields(fields)))
            <= text::byte_weight(json_text::compact_fields(fields)),
    decreases fields,
{
    if fields.len() > 0 {
        let before = fields.drop_last();
        let f = fields.last();
        assert(fields =~= before.push(f));
        lemma_simplified_fields_bytes(before);
        lemma_field_bytes(before, f);
        if f.key != "description"@ {
            let value = simplified_fields(fields).last().value;
            if holds_schema_map(f.key) {
                lemma_simplified_map_bytes(f.value);
            } else if holds_schema_array(f.key) {
                lemma_simplified_array_bytes(f.value);
            } else if holds_schema(f.key) {
                law_simplified_is_not_longer(f.value);
            }
            lemma_field_bytes(simplified_fields(before), FieldView { key: f.key, value });
        }
    }
}

proof fn lemma_simplified_map_bytes(v: JsonView)
    ensures
        text::utf8_len(json_text::compact(simplified_map(v))) <= text::utf8_len(
            json_text::compact(v),
        ),
    decreases v,
{
    match v {
        JsonView::Object(fields) => {
            lemma_simplified_values_bytes(fields);
            lemma_object_bytes(fields);
            lemma_object_bytes(simplified_values(fields));
        },
        _ => {},
    }
}

proof fn lemma_simplified_values_bytes(fields: Seq<FieldView>)
    ensures
        text::byte_weight(json_text::compact_fields(simplified_values(fields)))
            <= text::byte_weight(json_text::compact_fields(fields)),
        simplified_values(fields).len() == fields.len(),
    decreases fields,
{
    if fields.len() > 0 {
        let before = fields.drop_last();
        let f = fields.last();
        assert(fields =~= before.push(f));
        lemma_simplified_values_bytes(before);
        law_simplified_is_not_longer(f.value);
        lemma_field_bytes(before, f);
        lemma_field_bytes(
            simplified_values(before),
            FieldView { key: f.key, value: simplified(f.value) },
        );
    }
}

proof fn lemma_simplified_array_bytes(v: JsonView)
    ensures
        text::utf8_len(json_text::compact(simplified_array(v))) <= text::utf8_len(
            json_text::compact(v),
        ),
    decreases v,
{
    match v {
        JsonView::Array(items) => {
            lemma_simplified_items_bytes(items);
            lemma_array_bytes(items);
            lemma_array_bytes(simplified_items(items));
        },
        _ => {},
    }
}

proof fn lemma_simplified_items_bytes(items: Seq<JsonView>)
    ensures
        text::byte_weight(json_text::compact_items(simplified_items(items)))
            <= text::byte_weight(json_text::compact_items(items)),
        simplified_items(items).len() == items.len(),
    decreases items,
{
    if items.len() > 0 {
        let before = items.drop_last();
        lemma_simplified_items_bytes(before);
        law_simplified_is_not_longer(items.last());
        text::lemma_byte_weight_push(
            json_text::compact_items(before),
            json_text::compact(items.last()),
        );
        let after = simplified_items(before);
        let last = simplified(items.last());
        assert(after.push(last).drop_last() =~= after);
        text::lemma_byte_weight_push(json_text::compact_items(after), json_text::compact(last));
    }
}

// ---------------------------------------------------------------------------
// Tools
// ---------------------------------------------------------------------------

/// A tool with its schema simplified.
pub open spec fn with_simplified_schema(t: ToolView) -> ToolView {
    ToolView { schema: simplified(t.schema), ..t }
}

/// How many characters of `s` begin within its first `target` bytes, or right behind them, given
/// that the first `from` do.
pub open spec fn reach(s: Seq<char>, target: nat, from: nat) -> nat
    decreases s.len() - from,
{
    if from >= s.len() || text::utf8_len(s.take(from as int)) > target {
        from
    } else {
        reach(s, target, from + 1)
    }
}

/// The bytes to which a description of `len` bytes is to be cut so that `size` bytes of tool
/// definitions fit in `max_bytes`: in proportion, in binary64 arithmetic.
pub open spec fn proportional_bytes(len: nat, max_bytes: nat, size: nat) -> nat {
    let n = binary64::scaled_trunc(
        binary64::nearest_double(len),
        binary64::nearest_double(max_bytes),
        binary64::nearest_double(size),
    );
    if n > usize::MAX {
        usize::MAX as nat
    } else {
        n
    }
}

/// The bytes of a description that are kept in any case.
pub open spec fn least_bytes(s: Seq<char>) -> nat {
    text::utf8_len(truncation::head_of(s, MIN_DESCRIPTION_CHARS as nat))
}

/// A description cut in proportion.
pub open spec fn cut_description(s: Seq<char>, max_bytes: nat, size: nat) -> Seq<char> {
    let proportional = proportional_bytes(text::utf8_len(s), max_bytes, size);
    let target = if proportional > least_bytes(s) {
        proportional
    } else {
        least_bytes(s)
    };
    if text::utf8_len(s) > target {
        s.take(reach(s, target, 0) as int)
    } else {
        s
    }
}

/// Some tools, each with its schema simplified.
pub open spec fn with_simplified_schemas(tools: Seq<ToolView>) -> Seq<ToolView> {
    tools.map_values(|t: ToolView| with_simplified_schema(t))
}

/// Some tools, each with its description cut in proportion.
pub open spec fn with_cut_descriptions(tools: Seq<ToolView>, max_bytes: nat, size: nat) -> Seq<
    ToolView,
> {
    tools.map_values(
        |t: ToolView| ToolView { description: cut_description(t.description, max_bytes, size), ..t },
    )
}

/// Tool definitions that fit in `max_bytes`, as far as that can be had: as they are where they fit
/// or there is no limit, else without descriptions in their schemas, and where that is not enough
/// with their own descriptions cut in proportion.
pub open spec fn compressed_tools(tools: Seq<ToolView>, max_bytes: nat) -> Seq<ToolView> {
    let simple = with_simplified_schemas(tools);
    if max_bytes == 0 || tools_bytes(tools) <= max_bytes {
        tools
    } else if tools_bytes(simple) <= max_bytes {
        simple
    } else {
        with_cut_descriptions(simple, max_bytes, tools_bytes(simple))
    }
}

pub proof fn lemma_reach(s: Seq<char>, target: nat, from: nat)
    requires
        from <= s.len(),
    ensures
        from <= reach(s, target, from) <= s.len(),
    decreases s.len() - from,
{
    if !(from >= s.len() || text::utf8_len(s.take(from as int)) > target) {
        lemma_reach(s, target, from + 1);
    }
}

/// Cutting a description does not make it longer.
pub proof fn law_cut_description_is_not_longer(s: Seq<char>, max_bytes: nat, size: nat)
    ensures
        text::utf8_len(cut_description(s, max_bytes, size)) <= text::utf8_len(s),
        cut_description(s, max_bytes, size).is_prefix_of(s),
{
    let proportional = proportional_bytes(text::utf8_len(s), max_bytes, size);
    let target = if proportional > least_bytes(s) {
        proportional
    } else {
        least_bytes(s)
    };
    lemma_reach(s, target, 0);
    text::lemma_utf8_len_take(s, reach(s, target, 0) as int, s.len() as int);
}

proof fn lemma_simplified_tools_bytes(tools: Seq<ToolView>)
    ensures
        tools_bytes(with_simplified_schemas(tools)) <= tools_bytes(tools),
    decreases tools.len(),
{
    if tools.len() > 0 {
        lemma_simplified_tools_bytes(tools.drop_last());
        law_simplified_is_not_longer(tools.last().schema);
        assert(with_simplified_schemas(tools).drop_last() =~= with_simplified_schemas(
            tools.drop_last(),
        ));
    }
}

proof fn lemma_cut_tools_bytes(tools: Seq<ToolView>, max_bytes: nat, size: nat)
    ensures
        tools_bytes(with_cut_descriptions(tools, max_bytes, size)) <= tools_bytes(tools),
    decreases tools.len(),
{
    if tools.len() > 0 {
        lemma_cut_tools_bytes(tools.drop_last(), max_bytes, size);
        law_cut_description_is_not_longer(tools.last().description, max_bytes, size);
        assert(with_cut_descriptions(tools, max_bytes, size).drop_last() =~= with_cut_descriptions(
            tools.drop_last(),
            max_bytes,
            size,
        ));
    }
}

/// Compressing tool definitions never makes them larger.
pub proof fn law_compressed_tools_are_not_larger(tools: Seq<ToolView>, max_bytes: nat)
    ensures
        tools_bytes(compressed_tools(tools, max_bytes)) <= tools_bytes(tools),
{
    let simple = with_simplified_schemas(tools);
    lemma_simplified_tools_bytes(tools);
    lemma_cut_tools_bytes(simple, max_bytes, tools_bytes(simple));
}

fn copy_of_tool(t: &Tool) -> (r: Tool)
    ensures
        r@ == t@,
{
    Tool {
        tool_specification: ToolSpecification {
            name: t.tool_specification.name.clone(),
            description: t.tool_specification.description.clone(),
            input_schema: InputSchema { json: t.tool_specification.input_schema.json.clone() },
        },
    }
}

fn copy_of_tools(tools: &[Tool]) -> (r: Vec<Tool>)
    ensures
        conversation::tools_view(r@) == conversation::tools_view(tools@),
{
    let mut r: Vec<Tool> = Vec::new();
    let mut i: usize = 0;
    while i < tools.len()
        invariant
            i <= tools@.len(),
            r@.len() == i,
            forall|k: int| 0 <= k < i ==> (#[trigger] r@[k])@ == tools@[k]@,
        decreases tools@.len() - i,
    {
        r.push(copy_of_tool(&tools[i]));
        i = i + 1;
    }
    assert(conversation::tools_view(r@) =~= conversation::tools_view(tools@));
    r
}

/// A tool with its schema simplified.
fn simplify_schema(t: &Tool) -> (r: Tool)
    ensures
        r@ == with_simplified_schema(t@),
{
    Tool {
        tool_specification: ToolSpecification {
            name: t.tool_specification.name.clone(),
            description: t.tool_specification.description.clone(),
            input_schema: InputSchema {
                json: simplify_json_schema(&t.tool_specification.input_schema.json),
            },
        },
    }
}

/// How many characters begin within the first `target` bytes, or right behind them.
fn reach_of(chars: &Vec<char>, target: usize) -> (r: usize)
    ensures
        r == reach(chars@, target as nat, 0),
        r <= chars@.len(),
{
    let mut i: usize = 0;
    let mut offset: usize = 0;
    assert(chars@.take(0) =~= Seq::<char>::empty());
    while i < chars.len()
        invariant
            i <= chars@.len(),
            offset == text::utf8_len(chars@.take(i as int)),
            offset <= target,
            reach(chars@, target as nat, 0) == reach(chars@, target as nat, i as nat),
        decreases chars@.len() - i,
    {
        let c: char = chars[i];
        let w: usize = text::width_of(c);
        proof {
            text::lemma_utf8_len_push(chars@.take(i as int), c);
            assert(chars@.take(i + 1) =~= chars@.take(i as int).push(c));
        }
        if w > target - offset {
            assert(reach(chars@, target as nat, (i + 1) as nat) == i + 1);
            return i + 1;
        }
        offset = offset + w;
        i = i + 1;
    }
    i
}

/// A description cut in proportion.
fn cut_description_of(s: &str, max_bytes: usize, size: usize) -> (r: String)
    requires
        0 < max_bytes <= size,
    ensures
        r@ == cut_description(s@, max_bytes as nat, size as nat),
{
    let len: usize = text::byte_len(s);
    let scaled: u128 = binary64::scale_trunc(len as u64, max_bytes as u64, size as u64);
    let proportional: usize = if scaled > usize::MAX as u128 {
        usize::MAX
    } else {
        scaled as usize
    };
    let least: usize = text::byte_len(truncation::safe_char_truncate(s, MIN_DESCRIPTION_CHARS));
    let target: usize = if proportional > least {
        proportional
    } else {
        least
    };
    if len > target {
        let chars = text::to_chars(s);
        let n: usize = reach_of(&chars, target);
        assert(chars@.subrange(0, n as int) =~= chars@.take(n as int));
        text::text_of(&chars, 0, n)
    } else {
        s.to_string()
    }
}

/// Tool definitions that fit in `max_bytes`, as far as that can be had.
pub fn compress_tools_if_needed(tools: &[Tool], max_bytes: usize) -> (r: Vec<Tool>)
    requires
        max_bytes > 0 ==> tools_bytes(conversation::tools_view(tools@)) <= usize::MAX,
    ensures
        conversation::tools_view(r@) == compressed_tools(
            conversation::tools_view(tools@),
            max_bytes as nat,
        ),
{
    let ghost all = conversation::tools_view(tools@);
    if max_bytes == 0 {
        return copy_of_tools(tools);
    }
    let total: usize = estimate_tools_size(tools);
    if total <= max_bytes {
        return copy_of_tools(tools);
    }
    let ghost simple = with_simplified_schemas(all);
    let mut compressed: Vec<Tool> = Vec::new();
    let mut i: usize = 0;
    while i < tools.len()
        invariant
            i <= tools@.len(),
            all == conversation::tools_view(tools@),
            simple == with_simplified_schemas(all),
            compressed@.len() == i,
            forall|k: int| 0 <= k < i ==> (#[trigger] compressed@[k])@ == simple[k],
        decreases tools@.len() - i,
    {
        compressed.push(simplify_schema(&tools[i]));
        i = i + 1;
    }
    assert(conversation::tools_view(compressed@) =~= simple);
    proof {
        lemma_simplified_tools_bytes(all);
    }
    let size: usize = estimate_tools_size(compressed.as_slice());
    if size <= max_bytes {
        return compressed;
    }
    let ghost cut = with_cut_descriptions(simple, max_bytes as nat, size as nat);
    let mut k: usize = 0;
    while k < compressed.len()
        invariant
            0 < max_bytes < size,
            k <= compressed@.len(),
            compressed@.len() == simple.len(),
            cut == with_cut_descriptions(simple, max_bytes as nat, size as nat),
            forall|j: int| 0 <= j < k ==> (#[trigger] compressed@[j])@ == cut[j],
            forall|j: int| k <= j < simple.len() ==> (#[trigger] compressed@[j])@ == simple[j],
        decreases compressed@.len() - k,
    {
        assert(compressed@[k as int]@ == simple[k as int]);
        let description = cut_description_of(
            compressed[k].tool_specification.description.as_str(),
            max_bytes,
            size,
        );
        compressed[k].tool_specification.description = description;
        assert(compressed@[k as int]@ == cut[k as int]);
        k = k + 1;
    }
    assert(conversation::tools_view(compressed@) =~= cut);
    compressed
}

} // verus!
