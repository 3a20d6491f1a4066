//! What is left of tool definitions when they are compressed.

use vstd::prelude::*;

use crate::binary64;
use crate::conversation::ToolView;
use crate::json::{FieldView, JsonView};
use crate::json_text;
use crate::text;
use crate::tool_compression;
use crate::truncation;

verus! {

// ---------------------------------------------------------------------------
// Sizes
// ---------------------------------------------------------------------------

/// One more tool adds the bytes of its name, its description and its schema to the size of tool
/// definitions.
pub proof fn law_size_of_tools(tools: Seq<ToolView>, t: ToolView)
    ensures
        tool_compression::tools_bytes(Seq::empty()) == 0,
        tool_compression::tools_bytes(tools.push(t)) == tool_compression::tools_bytes(tools)
            + text::utf8_len(t.name) + text::utf8_len(t.description) + text::utf8_len(
            json_text::compact(t.schema),
        ),
{
    assert(tools.push(t).drop_last() =~= tools);
}

// ---------------------------------------------------------------------------
// What becomes of the tools
// ---------------------------------------------------------------------------

/// Whether `plain` are the tools with nothing but their schemas simplified.
pub open spec fn with_plain_schemas(tools: Seq<ToolView>, plain: Seq<ToolView>) -> bool {
    &&& plain.len() == tools.len()
    &&& forall|i: int|
        0 <= i < tools.len() ==> (#[trigger] plain[i]).name == tools[i].name && plain[i].description
            == tools[i].description && plain[i].schema == tool_compression::simplified(
            tools[i].schema,
        )
}

/// Tools that are too large keep their names and have their schemas simplified. Where this makes
/// them small enough, every description stays; where it does not, each is cut by the limit over
/// the size that the tools have with simplified schemas.
pub proof fn law_tools_are_compressed_in_steps(
    tools: Seq<ToolView>,
    plain: Seq<ToolView>,
    max_bytes: nat,
)
    requires
        with_plain_schemas(tools, plain),
    ensures
        ({
            let out = tool_compression::compressed_tools(tools, max_bytes);
            let size = tool_compression::tools_bytes(plain);
            &&& max_bytes == 0 || tool_compression::tools_bytes(tools) <= max_bytes ==> out == tools
            &&& 0 < max_bytes < tool_compression::tools_bytes(tools) ==> {
                &&& out.len() == tools.len()
                &&& forall|i: int|
                    0 <= i < tools.len() ==> (#[trigger] out[i]).name == tools[i].name
                        && out[i].schema == tool_compression::simplified(tools[i].schema)
                &&& size <= max_bytes ==> forall|i: int|
                    0 <= i < tools.len() ==> (#[trigger] out[i]).description == tools[i].description
                &&& size > max_bytes ==> forall|i: int|
                    0 <= i < tools.len() ==> (#[trigger] out[i]).description
                        == tool_compression::cut_description(
                        tools[i].description,
                        max_bytes,
                        size,
                    )
            }
        }),
{
    assert(plain =~= tool_compression::with_simplified_schemas(tools));
}

/// Every description stays where the tools fit with simplified schemas.
pub proof fn law_descriptions_stay_where_simplifying_is_enough(
    tools: Seq<ToolView>,
    plain: Seq<ToolView>,
    max_bytes: nat,
)
    requires
        with_plain_schemas(tools, plain),
        tool_compression::tools_bytes(plain) <= max_bytes,
    ensures
        ({
            let out = tool_compression::compressed_tools(tools, max_bytes);
            &&& out.len() == tools.len()
            &&& forall|i: int|
                0 <= i < tools.len() ==> (#[trigger] out[i]).description == tools[i].description
        }),
{
    law_tools_are_compressed_in_steps(tools, plain, max_bytes);
}

/// A description is cut behind the first character that takes it past its share of the limit, or
/// past its first fifty characters where those take more bytes than the share. One that is not
/// longer than that stays.
pub proof fn law_descriptions_are_cut_to_their_share(s: Seq<char>, max_bytes: nat, size: nat)
    ensures
        ({
            let cut = tool_compression::cut_description(s, max_bytes, size);
            let share = tool_compression::proportional_bytes(text::utf8_len(s), max_bytes, size);
            let least = if s.len() <= 50 {
                text::utf8_len(s)
            } else {
                text::utf8_len(s.take(50))
            };
            let target = if share > least {
                share
            } else {
                least
            };
            &&& text::utf8_len(s) <= target ==> cut == s
            &&& text::utf8_len(s) > target ==> {
                &&& cut.is_prefix_of(s)
                &&& cut.len() > 50
                &&& text::utf8_len(cut) > target
                &&& text::utf8_len(cut.drop_last()) <= target
            }
        }),
{
    let share = tool_compression::proportional_bytes(text::utf8_len(s), max_bytes, size);
    let least = tool_compression::least_bytes(s);
    assert(s.len() > 50 ==> truncation::head_of(s, 50) == s.take(50));
    assert(s.len() <= 50 ==> truncation::head_of(s, 50) == s);
    let target = if share > least {
        share
    } else {
        least
    };
    if text::utf8_len(s) > target {
        let cut = tool_compression::cut_description(s, max_bytes, size);
        assert(s.take(0) =~= Seq::<char>::empty());
        assert(vstd::utf8::encode_utf8(s.take(0)).len() == 0);
        lemma_reach_is_just_past(s, target, 0);
        let k = tool_compression::reach(s, target, 0) as int;
        assert(cut == s.take(k));
        assert(cut.drop_last() =~= s.take(k - 1));
        assert(cut =~= s.take(cut.len() as int));
        if k <= 50 {
            text::lemma_utf8_len_take(s, k, 50);
        }
    }
}

proof fn lemma_reach_is_just_past(s: Seq<char>, target: nat, from: nat)
    requires
        from <= s.len(),
        text::utf8_len(s.take(from as int)) <= target < text::utf8_len(s),
    ensures
        ({
            let k = tool_compression::reach(s, target, from) as int;
            &&& from < k <= s.len()
            &&& text::utf8_len(s.take(k)) > target
            &&& text::utf8_len(s.take(k - 1)) <= target
        }),
    decreases s.len() - from,
{
    assert(s.take(s.len() as int) =~= s);
    assert(from < s.len());
    let next = (from + 1) as nat;
    if text::utf8_len(s.take(next as int)) <= target {
        lemma_reach_is_just_past(s, target, next);
    } else {
        assert(tool_compression::reach(s, target, next) == next);
    }
}

/// The share of a description of less than four billion bytes in a limit is its length times the
/// limit over the size: not one above it, and less than two below it.
pub proof fn law_shares_are_in_proportion(len: nat, max_bytes: nat, size: nat)
    requires
        len <= 0xffff_ffff,
        0 < max_bytes < size < 0x20_0000_0000_0000,
    ensures
        ({
            let share = tool_compression::proportional_bytes(len, max_bytes, size);
            &&& share * size < len * max_bytes + size
            &&& len * max_bytes < share * size + 2 * size
        }),
{
    binary64::lemma_short_integers_are_exact(len);
    binary64::lemma_short_integers_are_exact(max_bytes);
    binary64::lemma_short_integers_are_exact(size);
    binary64::lemma_scaled_trunc_is_near(len, max_bytes, size);
    let n = binary64::scaled_trunc(len, max_bytes, size);
    assert(n <= len) by (nonlinear_arith)
        requires
            n * size < len * max_bytes + size,
            max_bytes < size,
            size > 0,
    ;
}

/// Where the tools are twice as large as they may be, the share of a description is its half, with
/// a half byte that is left over cut off.
pub proof fn law_half_shares_are_cut_off(len: nat, max_bytes: nat)
    requires
        len <= 0xffff_ffff,
        0 < max_bytes < 0x10_0000_0000_0000,
    ensures
        tool_compression::proportional_bytes(len, max_bytes, 2 * max_bytes) == len / 2,
{
    binary64::lemma_short_integers_are_exact(len);
    binary64::lemma_short_integers_are_exact(max_bytes);
    binary64::lemma_short_integers_are_exact(2 * max_bytes);
    binary64::lemma_scaled_to_the_half(len, max_bytes);
}

// ---------------------------------------------------------------------------
// Schemas
// ---------------------------------------------------------------------------

/// Whether a keyword has a schema as its value.
pub open spec fn names_a_schema(key: Seq<char>) -> bool {
    ||| key == "items"@
    ||| key == "additionalProperties"@
    ||| key == "additionalItems"@
    ||| key == "unevaluatedProperties"@
    ||| key == "unevaluatedItems"@
    ||| key == "not"@
    ||| key == "if"@
    ||| key == "then"@
    ||| key == "else"@
    ||| key == "propertyNames"@
    ||| key == "contains"@
}

/// Whether a keyword has a list of schemas as its value.
pub open spec fn names_a_list_of_schemas(key: Seq<char>) -> bool {
    key == "oneOf"@ || key == "anyOf"@ || key == "allOf"@ || key == "prefixItems"@
}

/// Whether a keyword has an object of schemas as its value.
pub open spec fn names_an_object_of_schemas(key: Seq<char>) -> bool {
    ||| key == "properties"@
    ||| key == "patternProperties"@
    ||| key == "$defs"@
    ||| key == "definitions"@
    ||| key == "dependentSchemas"@
    ||| key == "dependencies"@
}

/// Whether `out` is a list of the items, each simplified; what is no list stays.
pub open spec fn each_item_simplified(v: JsonView, out: JsonView) -> bool {
    match v {
        JsonView::Array(items) => {
            &&& out is Array
            &&& out->Array_0.len() == items.len()
            &&& forall|i: int|
                0 <= i < items.len() ==> #[trigger] out->Array_0[i] == tool_compression::simplified(
                    items[i],
                )
        },
        _ => out == v,
    }
}

/// Whether `out` has the keys of an object and each value simplified; what is no object stays.
pub open spec fn each_value_simplified(v: JsonView, out: JsonView) -> bool {
    match v {
        JsonView::Object(fields) => {
            &&& out is Object
            &&& out->Object_0.len() == fields.len()
            &&& forall|i: int|
                0 <= i < fields.len() ==> (#[trigger] out->Object_0[i]).key == fields[i].key
                    && out->Object_0[i].value == tool_compression::simplified(fields[i].value)
        },
        _ => out == v,
    }
}

/// Simplifying a schema takes away the description, and simplifies the schemas that its other
/// keywords hold: in each place where a schema stands, and nowhere else. What is no object stays.
pub proof fn law_schemas_lose_their_descriptions(v: JsonView, fields: Seq<FieldView>, f: FieldView)
    ensures
        !(v is Object) ==> tool_compression::simplified(v) == v,
        tool_compression::simplified(JsonView::Object(Seq::empty())) == JsonView::Object(
            Seq::empty(),
        ),
        ({
            let before = tool_compression::simplified(JsonView::Object(fields));
            let after = tool_compression::simplified(JsonView::Object(fields.push(f)));
            let out = after->Object_0.last().value;
            &&& before is Object
            &&& after is Object
            &&& f.key == "description"@ ==> after == before
            &&& f.key != "description"@ ==> {
                &&& after->Object_0.len() == before->Object_0.len() + 1
                &&& after->Object_0.drop_last() == before->Object_0
                &&& after->Object_0.last().key == f.key
                &&& names_a_schema(f.key) ==> out == tool_compression::simplified(f.value)
                &&& names_a_list_of_schemas(f.key) ==> each_item_simplified(f.value, out)
                &&& names_an_object_of_schemas(f.key) ==> each_value_simplified(f.value, out)
                &&& !names_a_schema(f.key) && !names_a_list_of_schemas(f.key)
                    && !names_an_object_of_schemas(f.key) ==> out == f.value
            }
        }),
{
    let before = tool_compression::simplified(JsonView::Object(fields));
    let after = tool_compression::simplified(JsonView::Object(fields.push(f)));
    assert(fields.push(f).drop_last() =~= fields);
    lemma_keywords_differ(f.key);
    reveal_with_fuel(tool_compression::simplified, 3);
    reveal_with_fuel(tool_compression::simplified_fields, 3);
    reveal_with_fuel(tool_compression::simplified_map, 3);
    reveal_with_fuel(tool_compression::simplified_array, 3);
    if f.key != "description"@ {
        assert(after->Object_0.drop_last() =~= before->Object_0);
        match f.value {
            JsonView::Array(items) => {
                lemma_simplified_items(items);
            },
            JsonView::Object(inner) => {
                lemma_simplified_values(inner);
            },
            _ => {},
        }
    }
}

/// No keyword holds schemas in two ways.
proof fn lemma_keywords_differ(key: Seq<char>)
    ensures
        !(names_a_schema(key) && names_a_list_of_schemas(key)),
        !(names_a_schema(key) && names_an_object_of_schemas(key)),
        !(names_a_list_of_schemas(key) && names_an_object_of_schemas(key)),
{
    reveal_strlit("items");
    reveal_strlit("additionalProperties");
    reveal_strlit("additionalItems");
    reveal_strlit("unevaluatedProperties");
    reveal_strlit("unevaluatedItems");
    reveal_strlit("not");
    reveal_strlit("if");
    reveal_strlit("then");
    reveal_strlit("else");
    reveal_strlit("propertyNames");
    reveal_strlit("contains");
    reveal_strlit("oneOf");
    reveal_strlit("anyOf");
    reveal_strlit("allOf");
    reveal_strlit("prefixItems");
    reveal_strlit("properties");
    reveal_strlit("patternProperties");
    reveal_strlit("$defs");
    reveal_strlit("definitions");
    reveal_strlit("dependentSchemas");
    reveal_strlit("dependencies");
    if names_a_schema(key) {
        assert(key[0] == 'i' || key[0] == 'a' || key[0] == 'u' || key[0] == 'n' || key[0] == 't'
            || key[0] == 'e' || key[0] == 'p' || key[0] == 'c');
        if key[0] == 'a' {
            assert(key[1] == 'd');
        }
        if key[0] == 'p' {
            assert(key[8] == 'N');
        }
    }
    if names_a_list_of_schemas(key) {
        assert(key[0] == 'o' || key[0] == 'a' || key[0] == 'p');
        if key[0] == 'a' {
            assert(key[1] == 'n' || key[1] == 'l');
        }
        if key[0] == 'p' {
            assert(key[2] == 'e');
        }
    }
    if names_an_object_of_schemas(key) {
        assert(key[0] == 'p' || key[0] == '$' || key[0] == 'd');
        if key[0] == 'p' {
            assert(key[2] == 'o' || key[2] == 't');
            assert(key[8] == 'e' || key[8] == 'r');
        }
    }
    if names_a_schema(key) && key[0] == 'p' {
        assert(key[2] == 'o');
    }
}

proof fn lemma_simplified_items(items: Seq<JsonView>)
    ensures
        tool_compression::simplified_items(items).len() == items.len(),
        forall|i: int|
            0 <= i < items.len() ==> #[trigger] tool_compression::simplified_items(items)[i]
                == tool_compression::simplified(items[i]),
    decreases items.len(),
{
    if items.len() > 0 {
        let front = items.drop_last();
        lemma_simplified_items(front);
        assert forall|i: int| 0 <= i < items.len() implies #[trigger]
        tool_compression::simplified_items(items)[i] == tool_compression::simplified(items[i]) by {
            if i < front.len() {
                assert(tool_compression::simplified_items(items)[i]
                    == tool_compression::simplified_items(front)[i]);
            }
        }
    }
}

proof fn lemma_simplified_values(fields: Seq<FieldView>)
    ensures
        tool_compression::simplified_values(fields).len() == fields.len(),
        forall|i: int|
            0 <= i < fields.len() ==> (#[trigger] tool_compression::simplified_values(fields)[i])
                == (FieldView {
                key: fields[i].key,
                value: tool_compression::simplified(fields[i].value),
            }),
    decreases fields.len(),
{
    if fields.len() > 0 {
        let front = fields.drop_last();
        lemma_simplified_values(front);
        assert forall|i: int| 0 <= i < fields.len() implies (
        #[trigger] tool_compression::simplified_values(fields)[i]) == (FieldView {
            key: fields[i].key,
            value: tool_compression::simplified(fields[i].value),
        }) by {
            if i < front.len() {
                assert(tool_compression::simplified_values(fields)[i]
                    == tool_compression::simplified_values(front)[i]);
            }
        }
    }
}

} // verus!
