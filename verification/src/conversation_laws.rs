//! What becomes of each part of a conversation when it is compressed.

use vstd::prelude::*;

use crate::compressor;
use crate::compressor::ResultLimits;
use crate::conversation::{
    AssistantView, CompressionConfig, ResultView, StateView, ToolUseView, TurnView, UserView,
};
use crate::json::{FieldView, JsonView};
use crate::json_text;
use crate::text;
use crate::tool_compression;
use crate::truncation;

verus! {

// ---------------------------------------------------------------------------
// White space
// ---------------------------------------------------------------------------

/// The pass over white space compresses what is said in the current message and in every turn of
/// the history, of either side, and changes nothing else.
pub proof fn law_all_that_is_said_loses_white_space(s: StateView)
    ensures
        ({
            let out = compressor::squeezed_state(s);
            &&& out.conversation_id == s.conversation_id
            &&& out.current == (UserView {
                content: truncation::compressed_field(s.current.content),
                ..s.current
            })
            &&& out.history.len() == s.history.len()
            &&& forall|i: int|
                0 <= i < s.history.len() ==> match s.history[i] {
                    TurnView::User(u) => #[trigger] out.history[i] == TurnView::User(
                        UserView { content: truncation::compressed_field(u.content), ..u },
                    ),
                    TurnView::Assistant(a) => out.history[i] == TurnView::Assistant(
                        AssistantView { content: truncation::compressed_field(a.content), ..a },
                    ),
                }
        }),
{
}

// ---------------------------------------------------------------------------
// Tool results
// ---------------------------------------------------------------------------

/// Whether the field at `i` is the first of its key.
pub open spec fn is_first(fields: Seq<FieldView>, i: int) -> bool {
    forall|j: int| 0 <= j < i ==> (#[trigger] fields[j]).key != fields[i].key
}

/// Whether `out` is an object with its text shortened: the string under the first `text`, and
/// nothing else.
pub open spec fn object_with_short_text(
    fields: Seq<FieldView>,
    out: Seq<FieldView>,
    l: ResultLimits,
) -> bool {
    &&& out.len() == fields.len()
    &&& forall|i: int|
        0 <= i < fields.len() ==> (#[trigger] out[i]).key == fields[i].key && out[i].value == if
            fields[i].key == "text"@ && is_first(fields, i) && fields[i].value is Text {
            JsonView::Text(
                truncation::shortened(
                    fields[i].value->Text_0,
                    l.max_chars,
                    l.head_lines,
                    l.tail_lines,
                ),
            )
        } else {
            fields[i].value
        }
}

/// Whether `out` are the results with their texts shortened, under the same ids.
pub open spec fn results_with_short_texts(
    results: Seq<ResultView>,
    out: Seq<ResultView>,
    l: ResultLimits,
) -> bool {
    &&& out.len() == results.len()
    &&& forall|i: int|
        0 <= i < results.len() ==> (#[trigger] out[i]).tool_use_id == results[i].tool_use_id
            && out[i].content.len() == results[i].content.len()
    &&& forall|i: int, j: int|
        #![trigger out[i].content[j]]
        0 <= i < results.len() && 0 <= j < results[i].content.len() ==> object_with_short_text(
            results[i].content[j],
            out[i].content[j],
            l,
        )
}

proof fn lemma_position(fields: Seq<FieldView>, key: Seq<char>)
    ensures
        ({
            let n = compressor::position_of(fields, key) as int;
            &&& n <= fields.len()
            &&& n < fields.len() ==> fields[n].key == key
            &&& forall|j: int| 0 <= j < n ==> (#[trigger] fields[j]).key != key
        }),
    decreases fields.len(),
{
    if fields.len() > 0 && fields[0].key != key {
        let rest = fields.drop_first();
        lemma_position(rest, key);
        let n = compressor::position_of(fields, key) as int;
        assert forall|j: int| 0 <= j < n implies (#[trigger] fields[j]).key != key by {
            if j > 0 {
                assert(fields[j] == rest[j - 1]);
            }
        }
    }
}

/// The text of an object in the content of a tool result is shortened, and nothing else in it.
pub proof fn law_result_objects_are_shortened(fields: Seq<FieldView>, l: ResultLimits)
    ensures
        object_with_short_text(fields, compressor::cut_object(fields, l), l),
{
    lemma_position(fields, "text"@);
    let out = compressor::cut_object(fields, l);
    let n = compressor::position_of(fields, "text"@) as int;
    assert forall|i: int| 0 <= i < fields.len() implies (#[trigger] out[i]).key == fields[i].key
        && out[i].value == if fields[i].key == "text"@ && is_first(fields, i)
        && fields[i].value is Text {
        JsonView::Text(
            truncation::shortened(
                fields[i].value->Text_0,
                l.max_chars,
                l.head_lines,
                l.tail_lines,
            ),
        )
    } else {
        fields[i].value
    } by {
        if i > n {
            assert(fields[n].key == "text"@);
        }
    }
}

proof fn lemma_results_are_shortened(results: Seq<ResultView>, l: ResultLimits)
    ensures
        results_with_short_texts(results, compressor::cut_results(results, l), l),
{
    let out = compressor::cut_results(results, l);
    assert forall|i: int, j: int|
        #![trigger out[i].content[j]]
        0 <= i < results.len() && 0 <= j < results[i].content.len() implies object_with_short_text(
        results[i].content[j],
        out[i].content[j],
        l,
    ) by {
        law_result_objects_are_shortened(results[i].content[j], l);
    }
}

/// The pass over tool results shortens the texts of all results, in the current message and in
/// every turn of the user, and changes nothing else.
pub proof fn law_all_tool_results_are_shortened(s: StateView, l: ResultLimits)
    ensures
        ({
            let out = compressor::state_with_cut_results(s, l);
            &&& out.conversation_id == s.conversation_id
            &&& out.current == (UserView { tool_results: out.current.tool_results, ..s.current })
            &&& results_with_short_texts(s.current.tool_results, out.current.tool_results, l)
            &&& out.history.len() == s.history.len()
            &&& forall|i: int|
                0 <= i < s.history.len() ==> match (s.history[i], #[trigger] out.history[i]) {
                    (TurnView::User(u), TurnView::User(v)) => {
                        &&& v == UserView { tool_results: v.tool_results, ..u }
                        &&& results_with_short_texts(u.tool_results, v.tool_results, l)
                    },
                    (TurnView::Assistant(a), TurnView::Assistant(b)) => a == b,
                    _ => false,
                }
        }),
{
    let out = compressor::state_with_cut_results(s, l);
    lemma_results_are_shortened(s.current.tool_results, l);
    assert forall|i: int| 0 <= i < s.history.len() implies match (
        s.history[i],
        #[trigger] out.history[i],
    ) {
        (TurnView::User(u), TurnView::User(v)) => {
            &&& v == UserView { tool_results: v.tool_results, ..u }
            &&& results_with_short_texts(u.tool_results, v.tool_results, l)
        },
        (TurnView::Assistant(a), TurnView::Assistant(b)) => a == b,
        _ => false,
    } by {
        if let TurnView::User(u) = s.history[i] {
            lemma_results_are_shortened(u.tool_results, l);
        }
    }
}

// ---------------------------------------------------------------------------
// Tool inputs
// ---------------------------------------------------------------------------

/// Whether `out` are the calls with the strings of long inputs cut: those that are written with
/// more than `max_chars` characters. Everything else of the calls is the same.
pub open spec fn uses_with_short_inputs(
    uses: Option<Seq<ToolUseView>>,
    out: Option<Seq<ToolUseView>>,
    max_chars: nat,
) -> bool {
    match (uses, out) {
        (Some(a), Some(b)) => {
            &&& b.len() == a.len()
            &&& forall|i: int|
                0 <= i < a.len() ==> {
                    &&& (#[trigger] b[i]).tool_use_id == a[i].tool_use_id
                    &&& b[i].name == a[i].name
                    &&& json_text::compact(a[i].input).len() <= max_chars ==> b[i].input
                        == a[i].input
                    &&& json_text::compact(a[i].input).len() > max_chars ==> b[i].input
                        == truncation::cut_strings(a[i].input, max_chars)
                }
        },
        (None, None) => true,
        _ => false,
    }
}

/// The pass over the inputs of tools cuts the strings of the long ones, in every turn of the
/// assistant, and changes nothing else.
pub proof fn law_all_long_inputs_are_cut(s: StateView, max_chars: nat)
    ensures
        ({
            let out = compressor::state_with_cut_inputs(s, max_chars);
            &&& out.conversation_id == s.conversation_id
            &&& out.current == s.current
            &&& out.history.len() == s.history.len()
            &&& forall|i: int|
                0 <= i < s.history.len() ==> match (s.history[i], #[trigger] out.history[i]) {
                    (TurnView::User(u), TurnView::User(v)) => u == v,
                    (TurnView::Assistant(a), TurnView::Assistant(b)) => a.content == b.content
                        && uses_with_short_inputs(a.tool_uses, b.tool_uses, max_chars),
                    _ => false,
                }
        }),
{
}

// ---------------------------------------------------------------------------
// The passes together
// ---------------------------------------------------------------------------

/// What is said after compression.
pub open spec fn said_after(
    before: Seq<char>,
    after: Seq<char>,
    config: CompressionConfig,
) -> bool {
    if config.enabled && config.whitespace_compression {
        after == truncation::compressed_field(before)
    } else {
        after == before
    }
}

/// The tool results after compression.
pub open spec fn results_after(
    before: Seq<ResultView>,
    after: Seq<ResultView>,
    config: CompressionConfig,
) -> bool {
    if config.enabled && config.tool_result_max_chars > 0 {
        results_with_short_texts(
            before,
            after,
            ResultLimits {
                max_chars: config.tool_result_max_chars as nat,
                head_lines: config.tool_result_head_lines as nat,
                tail_lines: config.tool_result_tail_lines as nat,
            },
        )
    } else {
        after == before
    }
}

/// The calls of tools after compression.
pub open spec fn uses_after(
    before: Option<Seq<ToolUseView>>,
    after: Option<Seq<ToolUseView>>,
    config: CompressionConfig,
) -> bool {
    if config.enabled && config.tool_use_input_max_chars > 0 {
        uses_with_short_inputs(before, after, config.tool_use_input_max_chars as nat)
    } else {
        after == before
    }
}

/// What becomes of a message of the user.
pub open spec fn user_after(before: UserView, after: UserView, config: CompressionConfig) -> bool {
    &&& after.model_id == before.model_id
    &&& after.tools == before.tools
    &&& said_after(before.content, after.content, config)
    &&& results_after(before.tool_results, after.tool_results, config)
}

/// Compression does to each part of a conversation what is asked for, and to all of them: it
/// compresses the white space of everything that is said, shortens the results of tools and cuts
/// their inputs, each where it is enabled. Nothing else changes.
pub proof fn law_compression_reaches_every_part(s: StateView, config: CompressionConfig)
    ensures
        ({
            let out = compressor::compressed_state(s, config);
            &&& out.conversation_id == s.conversation_id
            &&& user_after(s.current, out.current, config)
            &&& out.history.len() == s.history.len()
            &&& forall|i: int|
                0 <= i < s.history.len() ==> match (s.history[i], #[trigger] out.history[i]) {
                    (TurnView::User(u), TurnView::User(v)) => user_after(u, v, config),
                    (TurnView::Assistant(a), TurnView::Assistant(b)) => said_after(
                        a.content,
                        b.content,
                        config,
                    ) && uses_after(a.tool_uses, b.tool_uses, config),
                    _ => false,
                }
        }),
{
    let a = if config.enabled && config.whitespace_compression {
        compressor::squeezed_state(s)
    } else {
        s
    };
    let l = compressor::limits(
        config.tool_result_max_chars,
        config.tool_result_head_lines,
        config.tool_result_tail_lines,
    );
    let b = if config.enabled && config.tool_result_max_chars > 0 {
        compressor::state_with_cut_results(a, l)
    } else {
        a
    };
    let out = compressor::compressed_state(s, config);
    law_all_that_is_said_loses_white_space(s);
    law_all_tool_results_are_shortened(a, l);
    law_all_long_inputs_are_cut(b, config.tool_use_input_max_chars as nat);
    assert forall|i: int| 0 <= i < s.history.len() implies match (
        s.history[i],
        #[trigger] out.history[i],
    ) {
        (TurnView::User(u), TurnView::User(v)) => user_after(u, v, config),
        (TurnView::Assistant(x), TurnView::Assistant(y)) => said_after(
            x.content,
            y.content,
            config,
        ) && uses_after(x.tool_uses, y.tool_uses, config),
        _ => false,
    } by {
        let first = a.history[i];
        let second = b.history[i];
        assert(first is User <==> s.history[i] is User);
        assert(second is User <==> first is User);
    }
}

/// Only the tools of the current message are compressed, to the size that the tools may have, and
/// only where compression is enabled.
pub proof fn law_only_current_tools_are_compressed(s: StateView, config: CompressionConfig)
    ensures
        ({
            let out = compressor::state_with_compressed_tools(s, config);
            &&& out.conversation_id == s.conversation_id
            &&& out.history == s.history
            &&& out.current.content == s.current.content
            &&& out.current.model_id == s.current.model_id
            &&& out.current.tool_results == s.current.tool_results
            &&& config.enabled ==> out.current.tools == tool_compression::compressed_tools(
                s.current.tools,
                config.tool_definition_max_bytes as nat,
            )
            &&& !config.enabled ==> out.current.tools == s.current.tools
        }),
{
}

/// A request has the tools of its current message compressed, and then every part of its
/// conversation: where compression is disabled nothing changes.
pub proof fn law_requests_are_compressed(s: StateView, config: CompressionConfig)
    ensures
        ({
            let out = compressor::compressed_state(
                compressor::state_with_compressed_tools(s, config),
                config,
            );
            &&& !config.enabled ==> out == s
            &&& config.enabled ==> {
                &&& out.conversation_id == s.conversation_id
                &&& out.current.model_id == s.current.model_id
                &&& out.current.tools == tool_compression::compressed_tools(
                    s.current.tools,
                    config.tool_definition_max_bytes as nat,
                )
                &&& said_after(s.current.content, out.current.content, config)
                &&& results_after(s.current.tool_results, out.current.tool_results, config)
                &&& out.history == compressor::compressed_state(s, config).history
            }
        }),
{
    let t = compressor::state_with_compressed_tools(s, config);
    law_only_current_tools_are_compressed(s, config);
    law_compression_reaches_every_part(t, config);
}

// ---------------------------------------------------------------------------
// Bytes
// ---------------------------------------------------------------------------

/// The bytes that are said: one more turn, of either side, adds what it says; an empty history
/// leaves what the current message says.
pub proof fn law_bytes_said(s: StateView, u: UserView, a: AssistantView)
    ensures
        ({
            let bytes = compressor::content_bytes(s);
            let by_user = StateView { history: s.history.push(TurnView::User(u)), ..s };
            let by_assistant = StateView { history: s.history.push(TurnView::Assistant(a)), ..s };
            &&& compressor::content_bytes(by_user) == bytes + text::utf8_len(u.content)
            &&& compressor::content_bytes(by_assistant) == bytes + text::utf8_len(a.content)
            &&& s.history.len() == 0 ==> bytes == text::utf8_len(s.current.content)
        }),
{
    assert(s.history.push(TurnView::User(u)).drop_last() =~= s.history);
    assert(s.history.push(TurnView::Assistant(a)).drop_last() =~= s.history);
}

/// The bytes of the texts in tool results: those of the string under the first `text` of each
/// object, over the objects of a result, the results of a message and the messages of the user.
pub proof fn law_bytes_of_tool_results(
    s: StateView,
    u: UserView,
    a: AssistantView,
    results: Seq<ResultView>,
    r: ResultView,
    content: Seq<Seq<FieldView>>,
    fields: Seq<FieldView>,
    i: int,
)
    ensures
        0 <= i < fields.len() && fields[i].key == "text"@ && is_first(fields, i)
            && fields[i].value is Text ==> compressor::object_bytes(fields) == text::utf8_len(
            fields[i].value->Text_0,
        ),
        0 <= i < fields.len() && fields[i].key == "text"@ && is_first(fields, i)
            && !(fields[i].value is Text) ==> compressor::object_bytes(fields) == 0,
        (forall|j: int| 0 <= j < fields.len() ==> (#[trigger] fields[j]).key != "text"@)
            ==> compressor::object_bytes(fields) == 0,
        compressor::objects_bytes(Seq::empty()) == 0,
        compressor::objects_bytes(content.push(fields)) == compressor::objects_bytes(content)
            + compressor::object_bytes(fields),
        compressor::results_bytes(Seq::empty()) == 0,
        compressor::results_bytes(results.push(r)) == compressor::results_bytes(results)
            + compressor::objects_bytes(r.content),
        s.history.len() == 0 ==> compressor::result_bytes(s) == compressor::results_bytes(
            s.current.tool_results,
        ),
        compressor::result_bytes(
            (StateView { history: s.history.push(TurnView::User(u)), ..s }),
        ) == compressor::result_bytes(s) + compressor::results_bytes(u.tool_results),
        compressor::result_bytes(
            (StateView { history: s.history.push(TurnView::Assistant(a)), ..s }),
        ) == compressor::result_bytes(s),
{
    lemma_position(fields, "text"@);
    let n = compressor::position_of(fields, "text"@) as int;
    if 0 <= i < fields.len() && fields[i].key == "text"@ && is_first(fields, i) {
        assert(!(n < i)) by {
            if n < i {
                assert(fields[n].key != fields[i].key);
            }
        }
    }
    assert(content.push(fields).drop_last() =~= content);
    assert(results.push(r).drop_last() =~= results);
    assert(s.history.push(TurnView::User(u)).drop_last() =~= s.history);
    assert(s.history.push(TurnView::Assistant(a)).drop_last() =~= s.history);
}

/// The bytes of the strings in the inputs of tools, over the calls of a turn and the turns of the
/// assistant.
pub proof fn law_bytes_of_inputs(
    s: StateView,
    u: UserView,
    a: AssistantView,
    uses: Seq<ToolUseView>,
    t: ToolUseView,
)
    ensures
        compressor::tool_uses_bytes(Seq::empty()) == 0,
        compressor::tool_uses_bytes(uses.push(t)) == compressor::tool_uses_bytes(uses)
            + truncation::string_bytes(t.input),
        s.history.len() == 0 ==> compressor::input_bytes(s) == 0,
        compressor::input_bytes((StateView { history: s.history.push(TurnView::User(u)), ..s }))
            == compressor::input_bytes(s),
        compressor::input_bytes(
            (StateView { history: s.history.push(TurnView::Assistant(a)), ..s }),
        ) == compressor::input_bytes(s) + match a.tool_uses {
            Some(x) => compressor::tool_uses_bytes(x),
            None => 0,
        },
{
    assert(uses.push(t).drop_last() =~= uses);
    assert(s.history.push(TurnView::User(u)).drop_last() =~= s.history);
    assert(s.history.push(TurnView::Assistant(a)).drop_last() =~= s.history);
}

} // verus!
