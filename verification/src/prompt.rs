//! A request as the sequence of steps in which its prompt is read: what enters the fingerprint of
//! the prefix, what is counted in tokens, and where breakpoints stand.

use vstd::prelude::*;

use crate::json;
use crate::json::{FieldView, Json, JsonField, JsonView};
use crate::json_text;
use crate::request;
use crate::request::{
    CacheControl, Message, MessageView, MessagesRequest, RequestView, SystemMessage, SystemView,
    Tool, ToolView,
};
use crate::text;

verus! {

broadcast use {json::group_json_view, vstd::string::group_string_axioms};

/// The time to live of a breakpoint that asks for none, in seconds.
pub const DEFAULT_TTL_SECS: i64 = 300;

/// The longest time to live, in seconds.
pub const MAX_TTL_SECS: i64 = 3600;

/// The seconds that a requested time to live stands for: an hour for `1h` in either case, five
/// minutes for everything else.
pub open spec fn ttl_secs(ttl: Option<Seq<char>>) -> i64 {
    match ttl {
        Some(s) => if text::same_ignoring_ascii_case(s, "1h"@) {
            3600
        } else {
            DEFAULT_TTL_SECS
        },
        None => DEFAULT_TTL_SECS,
    }
}

/// The seconds that the `ttl` of a `cache_control` stands for.
pub fn parse_ttl(ttl: Option<&str>) -> (r: i64)
    ensures
        r == ttl_secs(match ttl {
            Some(s) => Some(s@),
            None => None,
        }),
{
    match ttl {
        Some(s) => if text::eq_ignore_ascii_case(s, "1h") {
            3600
        } else if text::eq_ignore_ascii_case(s, "5m") {
            300
        } else {
            DEFAULT_TTL_SECS
        },
        None => DEFAULT_TTL_SECS,
    }
}

// ---------------------------------------------------------------------------
// Fingerprint texts
// ---------------------------------------------------------------------------

/// The text of a schema.
pub open spec fn schema_text(schema: Seq<FieldView>) -> Seq<char> {
    json_text::compact(JsonView::Object(schema))
}

/// The text by which a tool enters the fingerprint.
pub open spec fn tool_signature_text(t: ToolView) -> Seq<char> {
    "tool:"@ + t.name + "|"@ + t.description + "|"@ + schema_text(t.input_schema)
}

/// The text by which a tool is counted.
pub open spec fn tool_counted_text(t: ToolView) -> Seq<char> {
    t.name + " "@ + t.description + " "@ + schema_text(t.input_schema)
}

/// The text by which a tool enters the fingerprint: its name, description and schema.
pub fn tool_signature(t: &Tool) -> (r: String)
    ensures
        r@ == tool_signature_text(t@),
        request::keys_increase(t@.input_schema),
{
    let schema = json_text::compact_json(&t.input_schema.to_json());
    let mut out = "tool:".to_string();
    out.append(t.name.as_str());
    out.append("|");
    out.append(t.description.as_str());
    out.append("|");
    out.append(schema.as_str());
    out
}

/// The text by which a tool is counted in tokens: its name, description and schema.
pub fn tool_token_text(t: &Tool) -> (r: String)
    ensures
        r@ == tool_counted_text(t@),
{
    let schema = json_text::compact_json(&t.input_schema.to_json());
    let mut out = t.name.clone();
    out.append(" ");
    out.append(t.description.as_str());
    out.append(" ");
    out.append(schema.as_str());
    out
}

/// The text by which a system block enters the fingerprint. All billing headers count as the same.
pub open spec fn system_signature_text(s: SystemView) -> Seq<char> {
    if "x-anthropic-billing-header:"@.is_prefix_of(s.text) {
        "sys:"@ + "__anthropic_billing_header__"@
    } else {
        "sys:"@ + s.text
    }
}

/// The text by which a system block enters the fingerprint.
pub fn system_signature(s: &SystemMessage) -> (r: String)
    ensures
        r@ == system_signature_text(s@),
{
    let mut out = "sys:".to_string();
    if text::starts_with(s.text.as_str(), "x-anthropic-billing-header:") {
        out.append("__anthropic_billing_header__");
    } else {
        out.append(s.text.as_str());
    }
    out
}

/// The media type and data of an image block; empty where the block does not give them.
pub open spec fn image_source(v: JsonView) -> (Seq<char>, Seq<char>) {
    match json_text::field(v, "source"@) {
        Some(src) => (
            json_text::text_or_empty(src, "media_type"@),
            json_text::text_or_empty(src, "data"@),
        ),
        None => (Seq::empty(), Seq::empty()),
    }
}

/// The media type and data of an image block; empty where the block does not give them.
pub fn image_source_parts(v: &Json) -> (r: (&str, &str))
    ensures
        (r.0@, r.1@) == image_source(v@),
{
    match v.get("source") {
        Some(src) => (str_or_empty(src, "media_type"), str_or_empty(src, "data")),
        None => {
            proof {
                reveal_strlit("");
                assert(""@ =~= Seq::<char>::empty());
            }
            ("", "")
        },
    }
}

/// The string that `v` holds under `key`, or the empty string.
fn str_or_empty<'a>(v: &'a Json, key: &str) -> (r: &'a str)
    ensures
        r@ == json_text::text_or_empty(v@, key@),
{
    match v.get_str(key) {
        Some(s) => s,
        None => {
            proof {
                reveal_strlit("");
                assert(""@ =~= Seq::<char>::empty());
            }
            ""
        },
    }
}

/// The text by which an image block enters the fingerprint.
pub open spec fn image_signature_text(v: JsonView) -> Seq<char> {
    let (media_type, data) = image_source(v);
    "block:image|"@ + media_type + "|"@ + (if data.len() == 0 {
        json_text::canonical(v)
    } else {
        data
    })
}

/// The text by which an image block enters the fingerprint.
pub fn image_signature_value(v: &Json) -> (r: String)
    ensures
        r@ == image_signature_text(v@),
{
    let (media_type, data) = image_source_parts(v);
    let mut out = "block:image|".to_string();
    out.append(media_type);
    out.append("|");
    if data.is_empty() {
        let all = json_text::canonical_json(v);
        out.append(all.as_str());
    } else {
        out.append(data);
    }
    out
}

/// `v` without any field named `cache_control`, at any depth.
pub open spec fn stripped(v: JsonView) -> JsonView
    decreases v,
{
    match v {
        JsonView::Array(items) => JsonView::Array(stripped_items(items)),
        JsonView::Object(fields) => JsonView::Object(stripped_fields(fields)),
        _ => v,
    }
}

pub open spec fn stripped_items(items: Seq<JsonView>) -> Seq<JsonView>
    decreases items,
{
    if items.len() == 0 {
        Seq::empty()
    } else {
        stripped_items(items.drop_last()).push(stripped(items.last()))
    }
}

pub open spec fn stripped_fields(fields: Seq<FieldView>) -> Seq<FieldView>
    decreases fields,
{
    if fields.len() == 0 {
        Seq::empty()
    } else {
        let before = stripped_fields(fields.drop_last());
        let f = fields.last();
        if f.key == "cache_control"@ {
            before
        } else {
            before.push(FieldView { key: f.key, value: stripped(f.value) })
        }
    }
}

/// `v` without any field named `cache_control`, at any depth.
pub fn strip_cache_control_value(v: &Json) -> (r: Json)
    ensures
        r@ == stripped(v@),
    decreases v@,
{
    match v {
        Json::Array(items) => {
            let mut out: Vec<Json> = Vec::new();
            let mut i: usize = 0;
            let ghost all = json::items_view(items@);
            while i < items.len()
                invariant
                    i <= items@.len(),
                    all == json::items_view(items@),
                    v@ == JsonView::Array(all),
                    json::items_view(out@) == stripped_items(all.take(i as int)),
                decreases items@.len() - i,
            {
                proof {
                    json::lemma_item_smaller(all, i as int);
                    assert(all.take(i + 1).drop_last() =~= all.take(i as int));
                }
                let item = strip_cache_control_value(&items[i]);
                out.push(item);
                i = i + 1;
            }
            assert(all.take(i as int) =~= all);
            Json::Array(out)
        },
        Json::Object(fields) => {
            let mut out: Vec<JsonField> = Vec::new();
            let mut i: usize = 0;
            let ghost all = json::fields_view(fields@);
            while i < fields.len()
                invariant
                    i <= fields@.len(),
                    all == json::fields_view(fields@),
                    v@ == JsonView::Object(all),
                    json::fields_view(out@) == stripped_fields(all.take(i as int)),
                decreases fields@.len() - i,
            {
                proof {
                    json::lemma_value_smaller(all, i as int);
                    assert(all.take(i + 1).drop_last() =~= all.take(i as int));
                    assert(all.take(i + 1).last() == fields@[i as int]@);
                }
                if !text::same_text(fields[i].key.as_str(), "cache_control") {
                    let value = strip_cache_control_value(&fields[i].value);
                    out.push(JsonField { key: fields[i].key.clone(), value });
                }
                i = i + 1;
            }
            assert(all.take(i as int) =~= all);
            Json::Object(out)
        },
        _ => v.clone(),
    }
}

/// The canonical text of `v` without its cache marks.
pub fn canonical_json_without_cache_control(v: &Json) -> (r: String)
    ensures
        r@ == json_text::canonical(stripped(v@)),
{
    json_text::canonical_json(&strip_cache_control_value(v))
}

/// The canonical text of what `v` holds under `key`; empty where it holds nothing.
pub open spec fn canonical_field(v: JsonView, key: Seq<char>) -> Seq<char> {
    match json_text::field(v, key) {
        Some(x) => json_text::canonical(x),
        None => Seq::empty(),
    }
}

fn canonical_field_json(v: &Json, key: &str) -> (r: String)
    ensures
        r@ == canonical_field(v@, key@),
{
    match v.get(key) {
        Some(x) => json_text::canonical_json(x),
        None => String::new(),
    }
}

/// The text by which a content block enters the fingerprint. What drifts between turns without a
/// change in meaning, such as the ids of tool calls, has no part in it.
pub open spec fn block_signature_text(v: JsonView) -> Seq<char> {
    let kind = json_text::text_or_empty(v, "type"@);
    if kind == "text"@ {
        "block:text|"@ + json_text::text_or_empty(v, "text"@)
    } else if kind == "thinking"@ {
        "block:thinking|"@ + json_text::text_or_empty(v, "thinking"@)
    } else if kind == "redacted_thinking"@ {
        "block:redacted_thinking|"@ + json_text::text_or_empty(v, "data"@)
    } else if kind == "tool_use"@ {
        "block:tool_use|"@ + json_text::text_or_empty(v, "name"@) + "|"@ + canonical_field(
            v,
            "input"@,
        )
    } else if kind == "tool_result"@ {
        "block:tool_result|"@ + (if json_text::field(v, "is_error"@) == Some(JsonView::Bool(true)) {
            "true"@
        } else {
            "false"@
        }) + "|"@ + canonical_field(v, "content"@)
    } else if kind == "image"@ {
        image_signature_text(v)
    } else {
        "block:"@ + kind + "|"@ + json_text::canonical(stripped(v))
    }
}

/// The text by which a content block enters the fingerprint.
pub fn block_signature_value(v: &Json) -> (r: String)
    ensures
        r@ == block_signature_text(v@),
{
    let kind = str_or_empty(v, "type");
    if text::same_text(kind, "text") {
        let mut out = "block:text|".to_string();
        out.append(str_or_empty(v, "text"));
        out
    } else if text::same_text(kind, "thinking") {
        let mut out = "block:thinking|".to_string();
        out.append(str_or_empty(v, "thinking"));
        out
    } else if text::same_text(kind, "redacted_thinking") {
        let mut out = "block:redacted_thinking|".to_string();
        out.append(str_or_empty(v, "data"));
        out
    } else if text::same_text(kind, "tool_use") {
        let mut out = "block:tool_use|".to_string();
        out.append(str_or_empty(v, "name"));
        out.append("|");
        out.append(canonical_field_json(v, "input").as_str());
        out
    } else if text::same_text(kind, "tool_result") {
        let mut out = "block:tool_result|".to_string();
        let is_error = match v.get("is_error") {
            Some(Json::Bool(b)) => *b,
            _ => false,
        };
        if is_error {
            out.append("true");
        } else {
            out.append("false");
        }
        out.append("|");
        out.append(canonical_field_json(v, "content").as_str());
        out
    } else if text::same_text(kind, "image") {
        image_signature_value(v)
    } else {
        let mut out = "block:".to_string();
        out.append(kind);
        out.append("|");
        out.append(canonical_json_without_cache_control(v).as_str());
        out
    }
}

// ---------------------------------------------------------------------------
// Counted texts
// ---------------------------------------------------------------------------

/// The text by which a content block is counted: its content without marks of structure. An image
/// is not counted as text.
pub open spec fn block_counted_text(v: JsonView) -> Seq<char>
    decreases v,
{
    let kind = json_text::text_or_empty(v, "type"@);
    if kind == "text"@ {
        json_text::text_or_empty(v, "text"@)
    } else if kind == "thinking"@ {
        json_text::text_or_empty(v, "thinking"@)
    } else if kind == "redacted_thinking"@ {
        json_text::text_or_empty(v, "data"@)
    } else if kind == "tool_use"@ {
        let name = json_text::text_or_empty(v, "name"@);
        if name.len() == 0 {
            canonical_field(v, "input"@)
        } else {
            name + " "@ + canonical_field(v, "input"@)
        }
    } else if kind == "tool_result"@ {
        if json_text::field(v, "content"@) is Some {
            proof {
                json_text::lemma_field_smaller(v, "content"@);
            }
            content_counted_text(json_text::field(v, "content"@)->0)
        } else {
            Seq::empty()
        }
    } else if kind == "image"@ {
        Seq::empty()
    } else {
        json_text::canonical(v)
    }
}

/// The text by which the content of a tool result is counted.
pub open spec fn content_counted_text(v: JsonView) -> Seq<char>
    decreases v,
{
    match v {
        JsonView::Text(s) => s,
        JsonView::Array(items) => text::join(counted_parts(items), " "@),
        _ => json_text::canonical(v),
    }
}

/// The counted texts of some blocks, without images and without empty texts.
pub open spec fn counted_parts(items: Seq<JsonView>) -> Seq<Seq<char>>
    decreases items,
{
    if items.len() == 0 {
        Seq::empty()
    } else {
        let before = counted_parts(items.drop_last());
        let item = items.last();
        if json_text::text_field(item, "type"@) == Some("image"@) || block_counted_text(item).len()
            == 0 {
            before
        } else {
            before.push(block_counted_text(item))
        }
    }
}

fn is_image(v: &Json) -> (r: bool)
    ensures
        r == (json_text::text_field(v@, "type"@) == Some("image"@)),
{
    match v.get_str("type") {
        Some(s) => text::same_text(s, "image"),
        None => false,
    }
}

/// The text by which a content block is counted in tokens.
pub fn block_token_text(v: &Json) -> (r: String)
    ensures
        r@ == block_counted_text(v@),
    decreases v@,
{
    let kind = str_or_empty(v, "type");
    if text::same_text(kind, "text") {
        str_or_empty(v, "text").to_string()
    } else if text::same_text(kind, "thinking") {
        str_or_empty(v, "thinking").to_string()
    } else if text::same_text(kind, "redacted_thinking") {
        str_or_empty(v, "data").to_string()
    } else if text::same_text(kind, "tool_use") {
        let input = canonical_field_json(v, "input");
        let name = str_or_empty(v, "name");
        if name.is_empty() {
            input
        } else {
            let mut out = name.to_string();
            out.append(" ");
            out.append(input.as_str());
            out
        }
    } else if text::same_text(kind, "tool_result") {
        match v.get("content") {
            Some(c) => {
                proof {
                    json_text::lemma_field_smaller(v@, "content"@);
                }
                block_content_token_text(c)
            },
            None => String::new(),
        }
    } else if text::same_text(kind, "image") {
        String::new()
    } else {
        json_text::canonical_json(v)
    }
}

/// The text by which the content of a tool result is counted in tokens.
pub fn block_content_token_text(v: &Json) -> (r: String)
    ensures
        r@ == content_counted_text(v@),
    decreases v@,
{
    match v {
        Json::Text(s) => s.clone(),
        Json::Array(items) => {
            let mut parts: Vec<String> = Vec::new();
            let mut i: usize = 0;
            let ghost all = json::items_view(items@);
            assert(text::texts_view(parts@) =~= counted_parts(all.take(0)));
            while i < items.len()
                invariant
                    i <= items@.len(),
                    all == json::items_view(items@),
                    v@ == JsonView::Array(all),
                    text::texts_view(parts@) == counted_parts(all.take(i as int)),
                decreases items@.len() - i,
            {
                proof {
                    json::lemma_item_smaller(all, i as int);
                    assert(all.take(i + 1).drop_last() =~= all.take(i as int));
                }
                if !is_image(&items[i]) {
                    let part = block_token_text(&items[i]);
                    if !part.as_str().is_empty() {
                        proof {
                            text::lemma_texts_view_push(parts@, part);
                        }
                        parts.push(part);
                    }
                }
                i = i + 1;
            }
            assert(all.take(i as int) =~= all);
            text::join_texts(&parts, " ")
        },
        _ => json_text::canonical_json(v),
    }
}

// ---------------------------------------------------------------------------
// Steps
// ---------------------------------------------------------------------------

/// What is counted in tokens.
pub enum TokenSource {
    /// A text that is not empty.
    Text(String),
    /// An image, as the block gives it.
    Image { media_type: String, data: String },
}

/// What a [`TokenSource`] holds.
#[verifier::ext_equal]
pub enum SourceView {
    Text(Seq<char>),
    Image { media_type: Seq<char>, data: Seq<char> },
}

impl View for TokenSource {
    type V = SourceView;

    open spec fn view(&self) -> SourceView {
        match self {
            TokenSource::Text(s) => SourceView::Text(s@),
            TokenSource::Image { media_type, data } => SourceView::Image {
                media_type: media_type@,
                data: data@,
            },
        }
    }
}

/// A step in reading a prompt.
pub enum PromptStep {
    /// A text enters the fingerprint, and something may be counted.
    Feed { signature: String, source: Option<TokenSource> },
    /// A breakpoint that was asked for.
    Breakpoint { ttl_secs: i64 },
    /// The end of a message.
    MessageEnd,
}

/// What a [`PromptStep`] holds.
#[verifier::ext_equal]
pub enum StepView {
    Feed { signature: Seq<char>, source: Option<SourceView> },
    Breakpoint { ttl_secs: i64 },
    MessageEnd,
}

impl View for PromptStep {
    type V = StepView;

    open spec fn view(&self) -> StepView {
        match self {
            PromptStep::Feed { signature, source } => StepView::Feed {
                signature: signature@,
                source: match source {
                    Some(s) => Some(s@),
                    None => None,
                },
            },
            PromptStep::Breakpoint { ttl_secs } => StepView::Breakpoint { ttl_secs: *ttl_secs },
            PromptStep::MessageEnd => StepView::MessageEnd,
        }
    }
}

pub open spec fn steps_view(steps: Seq<PromptStep>) -> Seq<StepView> {
    steps.map_values(|s: PromptStep| s@)
}

/// The step that feeds a text which is counted as `counted`. An empty text is not counted.
pub open spec fn feed_text(signature: Seq<char>, counted: Seq<char>) -> StepView {
    StepView::Feed {
        signature,
        source: if counted.len() == 0 {
            None
        } else {
            Some(SourceView::Text(counted))
        },
    }
}

/// The breakpoint for a cache mark, where there is one.
pub open spec fn mark_steps(cache_control: Option<Option<Seq<char>>>) -> Seq<StepView> {
    match cache_control {
        Some(ttl) => seq![StepView::Breakpoint { ttl_secs: ttl_secs(ttl) }],
        None => Seq::empty(),
    }
}

/// The time to live that a block's cache mark asks for.
pub open spec fn block_mark(v: JsonView) -> Option<Option<Seq<char>>> {
    match json_text::field(v, "cache_control"@) {
        Some(cc) => Some(json_text::text_field(cc, "ttl"@)),
        None => None,
    }
}

pub open spec fn tool_steps(tools: Seq<ToolView>) -> Seq<StepView>
    decreases tools.len(),
{
    if tools.len() == 0 {
        Seq::empty()
    } else {
        let t = tools.last();
        tool_steps(tools.drop_last()).push(
            feed_text(tool_signature_text(t), tool_counted_text(t)),
        ) + mark_steps(t.cache_control)
    }
}

pub open spec fn system_steps(systems: Seq<SystemView>) -> Seq<StepView>
    decreases systems.len(),
{
    if systems.len() == 0 {
        Seq::empty()
    } else {
        let s = systems.last();
        system_steps(systems.drop_last()).push(feed_text(system_signature_text(s), s.text))
            + mark_steps(s.cache_control)
    }
}

/// The step that feeds a content block.
pub open spec fn block_feed(v: JsonView) -> StepView {
    if json_text::text_field(v, "type"@) == Some("image"@) {
        let (media_type, data) = image_source(v);
        StepView::Feed {
            signature: image_signature_text(v),
            source: Some(SourceView::Image { media_type, data }),
        }
    } else {
        feed_text(block_signature_text(v), block_counted_text(v))
    }
}

pub open spec fn block_steps(blocks: Seq<JsonView>) -> Seq<StepView>
    decreases blocks.len(),
{
    if blocks.len() == 0 {
        Seq::empty()
    } else {
        let v = blocks.last();
        block_steps(blocks.drop_last()).push(block_feed(v)) + mark_steps(block_mark(v))
    }
}

pub open spec fn content_steps(content: JsonView) -> Seq<StepView> {
    match content {
        JsonView::Text(s) => seq![feed_text(s, s)],
        JsonView::Array(blocks) => block_steps(blocks),
        _ => Seq::empty(),
    }
}

pub open spec fn message_steps(messages: Seq<MessageView>) -> Seq<StepView>
    decreases messages.len(),
{
    if messages.len() == 0 {
        Seq::empty()
    } else {
        let m = messages.last();
        (message_steps(messages.drop_last()).push(
            StepView::Feed { signature: m.role, source: None },
        ) + content_steps(m.content)).push(StepView::MessageEnd)
    }
}

/// The steps in which the prompt of a request is read: tools, system prompt, messages.
pub open spec fn request_steps(req: RequestView) -> Seq<StepView> {
    tool_steps(match req.tools {
        Some(t) => t,
        None => Seq::empty(),
    }) + system_steps(match req.system {
        Some(s) => s,
        None => Seq::empty(),
    }) + message_steps(req.messages)
}

proof fn lemma_steps_view_push(steps: Seq<PromptStep>, s: PromptStep)
    ensures
        steps_view(steps.push(s)) == steps_view(steps).push(s@),
{
    assert(steps_view(steps.push(s)) =~= steps_view(steps).push(s@));
}

fn push_step(out: &mut Vec<PromptStep>, step: PromptStep)
    ensures
        steps_view(final(out)@) == steps_view(old(out)@).push(step@),
{
    proof {
        lemma_steps_view_push(out@, step);
    }
    out.push(step);
}

fn push_text_feed(out: &mut Vec<PromptStep>, signature: String, counted: String)
    ensures
        steps_view(final(out)@) == steps_view(old(out)@).push(feed_text(signature@, counted@)),
{
    let source = if counted.as_str().is_empty() {
        None
    } else {
        Some(TokenSource::Text(counted))
    };
    push_step(out, PromptStep::Feed { signature, source });
}

fn push_mark(out: &mut Vec<PromptStep>, cache_control: &Option<CacheControl>)
    ensures
        steps_view(final(out)@) == steps_view(old(out)@) + mark_steps(
            request::requested_ttl(*cache_control),
        ),
{
    match cache_control {
        Some(cc) => {
            let ttl: i64 = parse_ttl(
                match &cc.ttl {
                    Some(s) => Some(s.as_str()),
                    None => None,
                },
            );
            push_step(out, PromptStep::Breakpoint { ttl_secs: ttl });
        },
        None => {},
    }
    assert(steps_view(out@) =~= steps_view(old(out)@) + mark_steps(
        request::requested_ttl(*cache_control),
    ));
}

/// Whether a content block carries a cache mark.
pub fn block_has_cache_control(v: &Json) -> (r: bool)
    ensures
        r == (block_mark(v@) is Some),
{
    v.get("cache_control").is_some()
}

/// The time to live, in seconds, that a content block's cache mark asks for.
pub fn block_cache_ttl(v: &Json) -> (r: i64)
    ensures
        r == ttl_secs(match block_mark(v@) {
            Some(ttl) => ttl,
            None => None,
        }),
{
    match v.get("cache_control") {
        Some(cc) => parse_ttl(cc.get_str("ttl")),
        None => parse_ttl(None),
    }
}

fn push_block(out: &mut Vec<PromptStep>, v: &Json)
    ensures
        steps_view(final(out)@) == steps_view(old(out)@).push(block_feed(v@)) + mark_steps(
            block_mark(v@),
        ),
{
    if is_image(v) {
        let (media_type, data) = image_source_parts(v);
        let source = TokenSource::Image {
            media_type: media_type.to_string(),
            data: data.to_string(),
        };
        push_step(
            out,
            PromptStep::Feed { signature: image_signature_value(v), source: Some(source) },
        );
    } else {
        push_text_feed(out, block_signature_value(v), block_token_text(v));
    }
    let ghost fed = steps_view(out@);
    if block_has_cache_control(v) {
        let ttl: i64 = block_cache_ttl(v);
        push_step(out, PromptStep::Breakpoint { ttl_secs: ttl });
    }
    assert(steps_view(out@) =~= fed + mark_steps(block_mark(v@)));
}

fn push_message(out: &mut Vec<PromptStep>, m: &Message)
    ensures
        steps_view(final(out)@) == (steps_view(old(out)@).push(
            StepView::Feed { signature: m@.role, source: None },
        ) + content_steps(m@.content)).push(StepView::MessageEnd),
{
    push_step(out, PromptStep::Feed { signature: m.role.clone(), source: None });
    let ghost before = steps_view(out@);
    match &m.content {
        Json::Text(s) => {
            push_text_feed(out, s.clone(), s.clone());
        },
        Json::Array(blocks) => {
            let mut i: usize = 0;
            let ghost all = json::items_view(blocks@);
            assert(before + block_steps(all.take(0)) =~= before);
            while i < blocks.len()
                invariant
                    i <= blocks@.len(),
                    all == json::items_view(blocks@),
                    steps_view(out@) == before + block_steps(all.take(i as int)),
                decreases blocks@.len() - i,
            {
                proof {
                    assert(all.take(i + 1).drop_last() =~= all.take(i as int));
                }
                push_block(out, &blocks[i]);
                assert(steps_view(out@) =~= before + block_steps(all.take(i + 1)));
                i = i + 1;
            }
            assert(all.take(i as int) =~= all);
        },
        _ => {},
    }
    assert(steps_view(out@) =~= before + content_steps(m@.content));
    push_step(out, PromptStep::MessageEnd);
}

/// The steps in which the prompt of a request is read: tools, system prompt, messages.
pub fn prompt_steps(req: &MessagesRequest) -> (r: Vec<PromptStep>)
    ensures
        steps_view(r@) == request_steps(req@),
{
    let mut out: Vec<PromptStep> = Vec::new();
    match &req.tools {
        Some(tools) => {
            let mut i: usize = 0;
            let ghost all = request::tools_view(tools@);
            assert(steps_view(out@) =~= tool_steps(all.take(0)));
            while i < tools.len()
                invariant
                    i <= tools@.len(),
                    all == request::tools_view(tools@),
                    steps_view(out@) == tool_steps(all.take(i as int)),
                decreases tools@.len() - i,
            {
                proof {
                    assert(all.take(i + 1).drop_last() =~= all.take(i as int));
                }
                push_text_feed(&mut out, tool_signature(&tools[i]), tool_token_text(&tools[i]));
                push_mark(&mut out, &tools[i].cache_control);
                i = i + 1;
            }
            assert(all.take(i as int) =~= all);
        },
        None => {
            assert(steps_view(out@) =~= tool_steps(Seq::empty()));
        },
    }
    let ghost after_tools = steps_view(out@);
    match &req.system {
        Some(systems) => {
            let mut i: usize = 0;
            let ghost all = request::systems_view(systems@);
            assert(after_tools + system_steps(all.take(0)) =~= after_tools);
            while i < systems.len()
                invariant
                    i <= systems@.len(),
                    all == request::systems_view(systems@),
                    steps_view(out@) == after_tools + system_steps(all.take(i as int)),
                decreases systems@.len() - i,
            {
                proof {
                    assert(all.take(i + 1).drop_last() =~= all.take(i as int));
                }
                push_text_feed(&mut out, system_signature(&systems[i]), systems[i].text.clone());
                push_mark(&mut out, &systems[i].cache_control);
                assert(steps_view(out@) =~= after_tools + system_steps(all.take(i + 1)));
                i = i + 1;
            }
            assert(all.take(i as int) =~= all);
        },
        None => {
            assert(after_tools + system_steps(Seq::empty()) =~= after_tools);
        },
    }
    let ghost after_system = steps_view(out@);
    let ghost all = request::messages_view(req.messages@);
    let mut i: usize = 0;
    assert(after_system + message_steps(all.take(0)) =~= after_system);
    while i < req.messages.len()
        invariant
            i <= req.messages@.len(),
            all == request::messages_view(req.messages@),
            steps_view(out@) == after_system + message_steps(all.take(i as int)),
        decreases req.messages@.len() - i,
    {
        proof {
            assert(all.take(i + 1).drop_last() =~= all.take(i as int));
        }
        push_message(&mut out, &req.messages[i]);
        assert(steps_view(out@) =~= after_system + message_steps(all.take(i + 1)));
        i = i + 1;
    }
    assert(all.take(i as int) =~= all);
    out
}

} // verus!
