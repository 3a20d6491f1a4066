//! The parts of a messages request that bear on prompt caching.

use vstd::prelude::*;

use crate::json;
use crate::json::{FieldView, Json, JsonField, JsonView};
use crate::text;

verus! {

broadcast use json::group_json_view;

/// A mark that asks for a cache breakpoint.
#[derive(Debug, Clone)]
pub struct CacheControl {
    pub cache_type: String,
    pub ttl: Option<String>,
}

/// A block of the system prompt.
#[derive(Debug, Clone)]
pub struct SystemMessage {
    pub text: String,
    pub cache_control: Option<CacheControl>,
}

/// A tool that the model may call.
pub struct Tool {
    pub tool_type: Option<String>,
    pub name: String,
    pub description: String,
    pub input_schema: SchemaMap,
    pub max_uses: Option<i32>,
    pub cache_control: Option<CacheControl>,
}

/// One turn of the conversation.
pub struct Message {
    pub role: String,
    pub content: Json,
}

/// What the client says about itself.
#[derive(Debug, Clone)]
pub struct Metadata {
    pub user_id: Option<String>,
}

/// A messages request.
pub struct MessagesRequest {
    pub model: String,
    pub max_tokens: i32,
    pub messages: Vec<Message>,
    pub stream: bool,
    pub system: Option<Vec<SystemMessage>>,
    pub tools: Option<Vec<Tool>>,
    pub tool_choice: Option<Json>,
    /// How the model is to think, as the client sent it.
    pub thinking: Option<Json>,
    /// What the answer is to be like, as the client sent it.
    pub output_config: Option<Json>,
    pub metadata: Option<Metadata>,
}

// ---------------------------------------------------------------------------
// What a request holds
// ---------------------------------------------------------------------------

/// What a [`Tool`] holds that bears on caching; `cache_control` is the time to live asked for.
#[verifier::ext_equal]
pub struct ToolView {
    pub name: Seq<char>,
    pub description: Seq<char>,
    pub input_schema: Seq<FieldView>,
    pub cache_control: Option<Option<Seq<char>>>,
}

/// What a [`SystemMessage`] holds; `cache_control` is the time to live asked for.
#[verifier::ext_equal]
pub struct SystemView {
    pub text: Seq<char>,
    pub cache_control: Option<Option<Seq<char>>>,
}

/// What a [`Message`] holds.
#[verifier::ext_equal]
pub struct MessageView {
    pub role: Seq<char>,
    pub content: JsonView,
}

/// What a [`MessagesRequest`] holds.
#[verifier::ext_equal]
pub struct RequestView {
    pub model: Seq<char>,
    pub max_tokens: i32,
    pub messages: Seq<MessageView>,
    pub stream: bool,
    pub system: Option<Seq<SystemView>>,
    pub tools: Option<Seq<ToolView>>,
    pub tool_choice: Option<JsonView>,
    pub thinking: Option<JsonView>,
    pub output_config: Option<JsonView>,
    pub user_id: Option<Seq<char>>,
}

pub open spec fn optional_json(v: Option<Json>) -> Option<JsonView> {
    match v {
        Some(x) => Some(x@),
        None => None,
    }
}

pub open spec fn optional_text(s: Option<String>) -> Option<Seq<char>> {
    match s {
        Some(t) => Some(t@),
        None => None,
    }
}

pub open spec fn requested_ttl(cc: Option<CacheControl>) -> Option<Option<Seq<char>>> {
    match cc {
        Some(c) => Some(optional_text(c.ttl)),
        None => None,
    }
}

impl View for Tool {
    type V = ToolView;

    open spec fn view(&self) -> ToolView {
        ToolView {
            name: self.name@,
            description: self.description@,
            input_schema: self.input_schema@,
            cache_control: requested_ttl(self.cache_control),
        }
    }
}

impl View for SystemMessage {
    type V = SystemView;

    open spec fn view(&self) -> SystemView {
        SystemView { text: self.text@, cache_control: requested_ttl(self.cache_control) }
    }
}

impl View for Message {
    type V = MessageView;

    open spec fn view(&self) -> MessageView {
        MessageView { role: self.role@, content: self.content@ }
    }
}

pub open spec fn messages_view(messages: Seq<Message>) -> Seq<MessageView> {
    messages.map_values(|m: Message| m@)
}

pub open spec fn systems_view(systems: Seq<SystemMessage>) -> Seq<SystemView> {
    systems.map_values(|m: SystemMessage| m@)
}

pub open spec fn tools_view(tools: Seq<Tool>) -> Seq<ToolView> {
    tools.map_values(|t: Tool| t@)
}

impl View for MessagesRequest {
    type V = RequestView;

    open spec fn view(&self) -> RequestView {
        RequestView {
            model: self.model@,
            max_tokens: self.max_tokens,
            messages: messages_view(self.messages@),
            stream: self.stream,
            system: match self.system {
                Some(s) => Some(systems_view(s@)),
                None => None,
            },
            tools: match self.tools {
                Some(t) => Some(tools_view(t@)),
                None => None,
            },
            tool_choice: optional_json(self.tool_choice),
            thinking: optional_json(self.thinking),
            output_config: optional_json(self.output_config),
            user_id: match self.metadata {
                Some(m) => optional_text(m.user_id),
                None => None,
            },
        }
    }
}

// ---------------------------------------------------------------------------
// Schemas
// ---------------------------------------------------------------------------

/// The top level of a tool's input schema: fields in the order of their keys, no key twice.
#[derive(Debug)]
pub struct SchemaMap {
    fields: Vec<JsonField>,
}

impl View for SchemaMap {
    type V = Seq<FieldView>;

    closed spec fn view(&self) -> Seq<FieldView> {
        json::fields_view(self.fields@)
    }
}

/// Whether the keys stand in strictly increasing order.
pub open spec fn keys_increase(fields: Seq<FieldView>) -> bool {
    forall|i: int, j: int|
        0 <= i < j < fields.len() ==> text::text_le(#[trigger] fields[i].key, fields[j].key)
            && fields[i].key != #[trigger] fields[j].key
}

/// `fields` with `f` in its place: instead of a field of the same key, or before the first field
/// whose key stands after that of `f`.
pub open spec fn with_field(fields: Seq<FieldView>, f: FieldView) -> Seq<FieldView>
    decreases fields.len(),
{
    if fields.len() == 0 {
        seq![f]
    } else if fields[0].key == f.key {
        seq![f] + fields.drop_first()
    } else if text::text_le(f.key, fields[0].key) {
        seq![f] + fields
    } else {
        seq![fields[0]] + with_field(fields.drop_first(), f)
    }
}

/// What [`with_field`] does at position `at`, the first whose key does not stand before `f`'s.
proof fn lemma_with_field_at(fields: Seq<FieldView>, f: FieldView, at: int)
    requires
        0 <= at <= fields.len(),
        forall|k: int|
            0 <= k < at ==> fields[k].key != f.key && !text::text_le(
                f.key,
                #[trigger] fields[k].key,
            ),
        at < fields.len() ==> text::text_le(f.key, fields[at].key),
    ensures
        with_field(fields, f) == if at < fields.len() && fields[at].key == f.key {
            fields.update(at, f)
        } else {
            fields.insert(at, f)
        },
    decreases at,
{
    if at == 0 {
        if fields.len() == 0 {
            assert(fields.insert(0, f) =~= seq![f]);
        } else if fields[0].key == f.key {
            assert(fields.update(0, f) =~= seq![f] + fields.drop_first());
        } else {
            assert(fields.insert(0, f) =~= seq![f] + fields);
        }
    } else {
        let rest = fields.drop_first();
        assert(fields[0].key != f.key && !text::text_le(f.key, fields[0].key));
        assert forall|k: int| 0 <= k < at - 1 implies rest[k].key != f.key && !text::text_le(
            f.key,
            #[trigger] rest[k].key,
        ) by {
            assert(rest[k] == fields[k + 1]);
        }
        lemma_with_field_at(rest, f, at - 1);
        if at < fields.len() && fields[at].key == f.key {
            assert(fields.update(at, f) =~= seq![fields[0]] + rest.update(at - 1, f));
        } else {
            assert(fields.insert(at, f) =~= seq![fields[0]] + rest.insert(at - 1, f));
        }
    }
}

/// [`with_field`] keeps the keys strictly increasing.
pub proof fn lemma_with_field_increases(fields: Seq<FieldView>, f: FieldView)
    requires
        keys_increase(fields),
    ensures
        keys_increase(with_field(fields, f)),
        forall|i: int|
            0 <= i < with_field(fields, f).len() ==> (#[trigger] with_field(fields, f)[i] == f || (
            exists|j: int| 0 <= j < fields.len() && fields[j] == with_field(fields, f)[i])),
    decreases fields.len(),
{
    let out = with_field(fields, f);
    if fields.len() > 0 {
        let rest = fields.drop_first();
        assert(keys_increase(rest)) by {
            assert forall|i: int, j: int| 0 <= i < j < rest.len() implies text::text_le(
                #[trigger] rest[i].key,
                rest[j].key,
            ) && rest[i].key != #[trigger] rest[j].key by {
                assert(rest[i] == fields[i + 1] && rest[j] == fields[j + 1]);
            }
        }
        assert forall|k: int| 0 <= k < rest.len() implies text::text_le(
            fields[0].key,
            #[trigger] rest[k].key,
        ) && fields[0].key != rest[k].key by {
            assert(rest[k] == fields[k + 1]);
        }
        if fields[0].key == f.key {
            assert forall|i: int, j: int| 0 <= i < j < out.len() implies text::text_le(
                #[trigger] out[i].key,
                out[j].key,
            ) && out[i].key != #[trigger] out[j].key by {
                assert(out[j] == rest[j - 1]);
                if i > 0 {
                    assert(out[i] == rest[i - 1]);
                }
            }
            assert forall|i: int| 0 <= i < out.len() implies (#[trigger] out[i] == f || (exists|
                j: int,
            |
                0 <= j < fields.len() && fields[j] == out[i])) by {
                if i > 0 {
                    assert(out[i] == fields[i]);
                }
            }
        } else if text::text_le(f.key, fields[0].key) {
            assert forall|i: int, j: int| 0 <= i < j < out.len() implies text::text_le(
                #[trigger] out[i].key,
                out[j].key,
            ) && out[i].key != #[trigger] out[j].key by {
                assert(out[j] == fields[j - 1]);
                if i > 0 {
                    assert(out[i] == fields[i - 1]);
                } else {
                    if j > 1 {
                        assert(out[j] == rest[j - 2]);
                        text::lemma_text_le_transitive(f.key, fields[0].key, out[j].key);
                        text::lemma_text_le_total(fields[0].key, out[j].key);
                        text::lemma_text_le_total(f.key, fields[0].key);
                    }
                }
            }
            assert forall|i: int| 0 <= i < out.len() implies (#[trigger] out[i] == f || (exists|
                j: int,
            |
                0 <= j < fields.len() && fields[j] == out[i])) by {
                if i > 0 {
                    assert(out[i] == fields[i - 1]);
                }
            }
        } else {
            lemma_with_field_increases(rest, f);
            let tail = with_field(rest, f);
            text::lemma_text_le_total(f.key, fields[0].key);
            assert forall|i: int, j: int| 0 <= i < j < out.len() implies text::text_le(
                #[trigger] out[i].key,
                out[j].key,
            ) && out[i].key != #[trigger] out[j].key by {
                assert(out[j] == tail[j - 1]);
                if i > 0 {
                    assert(out[i] == tail[i - 1]);
                } else if tail[j - 1] != f {
                    let k = choose|k: int| 0 <= k < rest.len() && rest[k] == tail[j - 1];
                    assert(text::text_le(fields[0].key, rest[k].key));
                }
            }
            assert forall|i: int| 0 <= i < out.len() implies (#[trigger] out[i] == f || (exists|
                j: int,
            |
                0 <= j < fields.len() && fields[j] == out[i])) by {
                if i > 0 {
                    assert(out[i] == tail[i - 1]);
                    if out[i] != f {
                        let k = choose|k: int| 0 <= k < rest.len() && rest[k] == tail[i - 1];
                        assert(fields[k + 1] == out[i]);
                    }
                } else {
                    assert(out[0] == fields[0]);
                }
            }
        }
    } else {
        assert(out[0] == f);
    }
}

impl SchemaMap {
    /// In every schema the keys stand in strictly increasing order.
    #[verifier::type_invariant]
    spec fn keys_in_order(self) -> bool {
        keys_increase(json::fields_view(self.fields@))
    }

    /// A schema without fields.
    pub fn new() -> (r: SchemaMap)
        ensures
            r@ == Seq::<FieldView>::empty(),
            keys_increase(r@),
    {
        let fields: Vec<JsonField> = Vec::new();
        assert(json::fields_view(fields@) =~= Seq::<FieldView>::empty());
        SchemaMap { fields }
    }

    /// Sets the value under `key`.
    pub fn insert(&mut self, key: String, value: Json)
        ensures
            final(self)@ == with_field(old(self)@, (FieldView { key: key@, value: value@ })),
            keys_increase(old(self)@),
            keys_increase(final(self)@),
    {
        proof {
            use_type_invariant(&*self);
        }
        let ghost before = self@;
        let f = JsonField { key, value };
        let mut fields: Vec<JsonField> = Vec::new();
        assert(json::fields_view(fields@) =~= Seq::<FieldView>::empty());
        std::mem::swap(&mut fields, &mut self.fields);
        let mut at: usize = 0;
        while at < fields.len() && !text::not_after(f.key.as_str(), fields[at].key.as_str())
            invariant
                before == json::fields_view(fields@),
                at <= fields@.len(),
                forall|k: int|
                    0 <= k < at ==> before[k].key != f@.key && !text::text_le(
                        f@.key,
                        #[trigger] before[k].key,
                    ),
            decreases fields@.len() - at,
        {
            proof {
                text::lemma_text_le_total(f@.key, f@.key);
            }
            at = at + 1;
        }
        proof {
            lemma_with_field_at(before, f@, at as int);
            lemma_with_field_increases(before, f@);
        }
        if at < fields.len() && text::same_text(fields[at].key.as_str(), f.key.as_str()) {
            fields.set(at, f);
            assert(json::fields_view(fields@) =~= before.update(at as int, f@));
        } else {
            fields.insert(at, f);
            assert(json::fields_view(fields@) =~= before.insert(at as int, f@));
        }
        self.fields = fields;
    }

    /// The schema as a JSON object.
    pub fn to_json(&self) -> (r: Json)
        ensures
            r@ == JsonView::Object(self@),
            keys_increase(self@),
    {
        proof {
            use_type_invariant(self);
        }
        let mut out: Vec<JsonField> = Vec::new();
        let mut i: usize = 0;
        while i < self.fields.len()
            invariant
                i <= self.fields@.len(),
                json::fields_view(out@) == self@.take(i as int),
            decreases self.fields@.len() - i,
        {
            let field = JsonField {
                key: self.fields[i].key.clone(),
                value: self.fields[i].value.clone(),
            };
            assert(self@.take(i + 1) =~= self@.take(i as int).push(field@));
            out.push(field);
            i = i + 1;
        }
        assert(self@.take(i as int) =~= self@);
        Json::Object(out)
    }
}

} // verus!
