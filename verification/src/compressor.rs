//! Compressing a conversation before it is sent upstream.

use vstd::prelude::*;

use crate::conversation;
use crate::conversation::{
    AssistantView, CompressionConfig, ConversationState, KiroRequest, KiroView, Message,
    ResultView, StateView, ToolResult, ToolUseEntry, ToolUseView, TurnView, UserView,
};
use crate::json;
use crate::json::{FieldView, Json, JsonField, JsonView};
use crate::json_text;
use crate::text;
use crate::tool_compression;
use crate::truncation;

verus! {

broadcast use {json::group_json_view, vstd::string::group_string_axioms};

/// The bytes that compression has saved.
#[derive(Debug, Clone, Copy, PartialEq, Eq, Structural)]
pub struct CompressionStats {
    pub whitespace_saved: usize,
    pub tool_result_saved: usize,
    pub tool_use_input_saved: usize,
    pub tool_definition_saved: usize,
}

impl Default for CompressionStats {
    fn default() -> (r: CompressionStats)
        ensures
            r == (CompressionStats {
                whitespace_saved: 0,
                tool_result_saved: 0,
                tool_use_input_saved: 0,
                tool_definition_saved: 0,
            }),
    {
        CompressionStats {
            whitespace_saved: 0,
            tool_result_saved: 0,
            tool_use_input_saved: 0,
            tool_definition_saved: 0,
        }
    }
}

impl CompressionStats {
    /// The bytes saved in all.
    pub fn total_saved(&self) -> (r: usize)
        requires
            self.whitespace_saved + self.tool_result_saved + self.tool_use_input_saved
                + self.tool_definition_saved <= usize::MAX,
        ensures
            r == self.whitespace_saved + self.tool_result_saved + self.tool_use_input_saved
                + self.tool_definition_saved,
    {
        self.whitespace_saved + self.tool_result_saved + self.tool_use_input_saved
            + self.tool_definition_saved
    }
}

// ---------------------------------------------------------------------------
// White space
// ---------------------------------------------------------------------------

/// What is said in a turn.
pub open spec fn content_of(t: TurnView) -> Seq<char> {
    match t {
        TurnView::User(u) => u.content,
        TurnView::Assistant(a) => a.content,
    }
}

/// A message of the user with its white space compressed.
pub open spec fn squeezed_user(u: UserView) -> UserView {
    UserView { content: truncation::compressed_field(u.content), ..u }
}

/// A turn with its white space compressed.
pub open spec fn squeezed_turn(t: TurnView) -> TurnView {
    match t {
        TurnView::User(u) => TurnView::User(squeezed_user(u)),
        TurnView::Assistant(a) => TurnView::Assistant(
            AssistantView { content: truncation::compressed_field(a.content), ..a },
        ),
    }
}

/// Turns with their white space compressed.
pub open spec fn squeezed_turns(turns: Seq<TurnView>) -> Seq<TurnView> {
    turns.map_values(|t: TurnView| squeezed_turn(t))
}

/// A conversation with its white space compressed.
pub open spec fn squeezed_state(s: StateView) -> StateView {
    StateView {
        current: squeezed_user(s.current),
        history: squeezed_turns(s.history),
        ..s
    }
}

/// The bytes of what is said in some turns.
pub open spec fn turns_content_bytes(turns: Seq<TurnView>) -> nat
    decreases turns.len(),
{
    if turns.len() == 0 {
        0
    } else {
        turns_content_bytes(turns.drop_last()) + text::utf8_len(content_of(turns.last()))
    }
}

/// The bytes of what is said in a conversation.
pub open spec fn content_bytes(s: StateView) -> nat {
    turns_content_bytes(s.history) + text::utf8_len(s.current.content)
}

proof fn lemma_turns_content_take(turns: Seq<TurnView>, i: int)
    requires
        0 <= i <= turns.len(),
    ensures
        turns_content_bytes(turns.take(i)) <= turns_content_bytes(turns),
    decreases turns.len() - i,
{
    if i < turns.len() {
        assert(turns.take(i + 1).drop_last() =~= turns.take(i));
        lemma_turns_content_take(turns, i + 1);
    } else {
        assert(turns.take(i) =~= turns);
    }
}

fn squeeze_turn(msg: &mut Message) -> (saved: usize)
    ensures
        final(msg)@ == squeezed_turn(old(msg)@),
        saved == text::utf8_len(content_of(old(msg)@)) - text::utf8_len(content_of(final(msg)@)),
{
    match msg {
        Message::User(m) => truncation::compress_string_field(&mut m.user_input_message.content),
        Message::Assistant(m) => truncation::compress_string_field(
            &mut m.assistant_response_message.content,
        ),
    }
}

fn squeeze_turns(history: &mut Vec<Message>) -> (saved: usize)
    requires
        turns_content_bytes(conversation::history_view(old(history)@)) <= usize::MAX,
    ensures
        conversation::history_view(final(history)@) == squeezed_turns(
            conversation::history_view(old(history)@),
        ),
        saved == turns_content_bytes(conversation::history_view(old(history)@))
            - turns_content_bytes(conversation::history_view(final(history)@)),
{
    let ghost all = conversation::history_view(history@);
    let mut saved: usize = 0;
    let mut i: usize = 0;
    while i < history.len()
        invariant
            i <= history@.len(),
            history@.len() == all.len(),
            turns_content_bytes(all) <= usize::MAX,
            forall|k: int| 0 <= k < i ==> (#[trigger] history@[k])@ == squeezed_turn(all[k]),
            forall|k: int| i <= k < all.len() ==> (#[trigger] history@[k])@ == all[k],
            saved == turns_content_bytes(all.take(i as int)) - turns_content_bytes(
                conversation::history_view(history@).take(i as int),
            ),
        decreases all.len() - i,
    {
        let ghost before = conversation::history_view(history@);
        proof {
            assert(history@[i as int]@ == all[i as int]);
            lemma_turns_content_take(all, i + 1);
            assert(all.take(i + 1).drop_last() =~= all.take(i as int));
        }
        let n: usize = squeeze_turn(&mut history[i]);
        proof {
            let after = conversation::history_view(history@);
            assert(after.take(i + 1).drop_last() =~= before.take(i as int));
        }
        saved = saved + n;
        i = i + 1;
    }
    assert(all.take(i as int) =~= all);
    assert(conversation::history_view(history@).take(i as int) =~= conversation::history_view(
        history@,
    ));
    assert(conversation::history_view(history@) =~= squeezed_turns(all));
    saved
}

/// Compresses the white space of what is said, and gives the bytes that this saves.
pub fn compress_whitespace_pass(state: &mut ConversationState) -> (saved: usize)
    requires
        content_bytes(old(state)@) <= usize::MAX,
    ensures
        final(state)@ == squeezed_state(old(state)@),
        saved == content_bytes(old(state)@) - content_bytes(final(state)@),
{
    let past: usize = squeeze_turns(&mut state.history);
    let current: usize = truncation::compress_string_field(
        &mut state.current_message.user_input_message.content,
    );
    past + current
}

// ---------------------------------------------------------------------------
// Tool results
// ---------------------------------------------------------------------------

/// How far tool results are cut.
pub struct ResultLimits {
    pub max_chars: nat,
    pub head_lines: nat,
    pub tail_lines: nat,
}

/// The limits that a configuration gives.
pub open spec fn limits(max_chars: usize, head_lines: usize, tail_lines: usize) -> ResultLimits {
    ResultLimits {
        max_chars: max_chars as nat,
        head_lines: head_lines as nat,
        tail_lines: tail_lines as nat,
    }
}

/// The position of the first field named `key`, or the number of fields where there is none.
pub open spec fn position_of(fields: Seq<FieldView>, key: Seq<char>) -> nat
    decreases fields.len(),
{
    if fields.len() == 0 || fields[0].key == key {
        0
    } else {
        1 + position_of(fields.drop_first(), key)
    }
}

/// An object with the string under `text` cut.
pub open spec fn cut_object(fields: Seq<FieldView>, l: ResultLimits) -> Seq<FieldView> {
    let i = position_of(fields, "text"@) as int;
    if i < fields.len() && fields[i].value is Text {
        fields.update(
            i,
            FieldView {
                key: fields[i].key,
                value: JsonView::Text(
                    truncation::shortened(
                        fields[i].value->Text_0,
                        l.max_chars,
                        l.head_lines,
                        l.tail_lines,
                    ),
                ),
            },
        )
    } else {
        fields
    }
}

/// The bytes of the string under `text`.
pub open spec fn object_bytes(fields: Seq<FieldView>) -> nat {
    let i = position_of(fields, "text"@) as int;
    if i < fields.len() && fields[i].value is Text {
        text::utf8_len(fields[i].value->Text_0)
    } else {
        0
    }
}

/// The content of a tool result, each object cut.
pub open spec fn cut_content(content: Seq<Seq<FieldView>>, l: ResultLimits) -> Seq<Seq<FieldView>> {
    content.map_values(|o: Seq<FieldView>| cut_object(o, l))
}

pub open spec fn objects_bytes(content: Seq<Seq<FieldView>>) -> nat
    decreases content.len(),
{
    if content.len() == 0 {
        0
    } else {
        objects_bytes(content.drop_last()) + object_bytes(content.last())
    }
}

/// Tool results, each cut.
pub open spec fn cut_results(results: Seq<ResultView>, l: ResultLimits) -> Seq<ResultView> {
    results.map_values(|r: ResultView| ResultView { content: cut_content(r.content, l), ..r })
}

pub open spec fn results_bytes(results: Seq<ResultView>) -> nat
    decreases results.len(),
{
    if results.len() == 0 {
        0
    } else {
        results_bytes(results.drop_last()) + objects_bytes(results.last().content)
    }
}

/// A message of the user with its tool results cut.
pub open spec fn user_with_cut_results(u: UserView, l: ResultLimits) -> UserView {
    UserView { tool_results: cut_results(u.tool_results, l), ..u }
}

/// A turn with its tool results cut; only the user's turns have any.
pub open spec fn turn_with_cut_results(t: TurnView, l: ResultLimits) -> TurnView {
    match t {
        TurnView::User(u) => TurnView::User(user_with_cut_results(u, l)),
        TurnView::Assistant(_) => t,
    }
}

pub open spec fn turns_with_cut_results(turns: Seq<TurnView>, l: ResultLimits) -> Seq<TurnView> {
    turns.map_values(|t: TurnView| turn_with_cut_results(t, l))
}

/// A conversation with its tool results cut.
pub open spec fn state_with_cut_results(s: StateView, l: ResultLimits) -> StateView {
    StateView {
        current: user_with_cut_results(s.current, l),
        history: turns_with_cut_results(s.history, l),
        ..s
    }
}

/// The bytes of the tool results of a turn.
pub open spec fn turn_result_bytes(t: TurnView) -> nat {
    match t {
        TurnView::User(u) => results_bytes(u.tool_results),
        TurnView::Assistant(_) => 0,
    }
}

pub open spec fn turns_result_bytes(turns: Seq<TurnView>) -> nat
    decreases turns.len(),
{
    if turns.len() == 0 {
        0
    } else {
        turns_result_bytes(turns.drop_last()) + turn_result_bytes(turns.last())
    }
}

/// The bytes of the tool results of a conversation.
pub open spec fn result_bytes(s: StateView) -> nat {
    turns_result_bytes(s.history) + results_bytes(s.current.tool_results)
}

/// Changing the value at the position of a key does not move the key.
pub proof fn lemma_position_after_update(fields: Seq<FieldView>, key: Seq<char>, f: FieldView)
    requires
        position_of(fields, key) < fields.len(),
        f.key == fields[position_of(fields, key) as int].key,
    ensures
        position_of(fields.update(position_of(fields, key) as int, f), key) == position_of(
            fields,
            key,
        ),
    decreases fields.len(),
{
    let i = position_of(fields, key) as int;
    let after = fields.update(i, f);
    if fields[0].key != key {
        lemma_position_after_update(fields.drop_first(), key, f);
        assert(after.drop_first() =~= fields.drop_first().update(i - 1, f));
    }
}

fn find_position(fields: &Vec<JsonField>, key: &str) -> (r: usize)
    ensures
        r == position_of(json::fields_view(fields@), key@),
        r <= fields@.len(),
{
    let ghost all = json::fields_view(fields@);
    let mut i: usize = 0;
    assert(all.skip(0) =~= all);
    while i < fields.len()
        invariant
            i <= fields@.len(),
            all == json::fields_view(fields@),
            position_of(all, key@) == i + position_of(all.skip(i as int), key@),
        decreases fields@.len() - i,
    {
        let ghost rest = all.skip(i as int);
        assert(rest[0] == fields@[i as int]@);
        if text::same_text(fields[i].key.as_str(), key) {
            return i;
        }
        assert(rest.drop_first() =~= all.skip(i + 1));
        i = i + 1;
    }
    i
}

fn cut_object_text(
    fields: &mut Vec<JsonField>,
    max_chars: usize,
    head_lines: usize,
    tail_lines: usize,
) -> (saved: usize)
    ensures
        json::fields_view(final(fields)@) == cut_object(
            json::fields_view(old(fields)@),
            limits(max_chars, head_lines, tail_lines),
        ),
        saved == object_bytes(json::fields_view(old(fields)@)) - object_bytes(
            json::fields_view(final(fields)@),
        ),
{
    let ghost l = limits(max_chars, head_lines, tail_lines);
    let ghost all = json::fields_view(fields@);
    let i: usize = find_position(fields, "text");
    let mut saved: usize = 0;
    if i < fields.len() {
        assert(all[i as int] == fields@[i as int]@);
        match &mut fields[i].value {
            Json::Text(s) => {
                if s.as_str().unicode_len() > max_chars {
                    let (shorter, n) = truncation::smart_truncate_by_lines(
                        s.as_str(),
                        max_chars,
                        head_lines,
                        tail_lines,
                    );
                    *s = shorter;
                    saved = n;
                }
            },
            _ => {},
        }
        proof {
            if all[i as int].value is Text {
                let after = json::fields_view(fields@);
                lemma_position_after_update(all, "text"@, cut_object(all, l)[i as int]);
                assert(after =~= cut_object(all, l));
            } else {
                assert(json::fields_view(fields@) =~= all);
            }
        }
    }
    saved
}

proof fn lemma_objects_bytes_take(content: Seq<Seq<FieldView>>, i: int)
    requires
        0 <= i <= content.len(),
    ensures
        objects_bytes(content.take(i)) <= objects_bytes(content),
    decreases content.len() - i,
{
    if i < content.len() {
        assert(content.take(i + 1).drop_last() =~= content.take(i));
        lemma_objects_bytes_take(content, i + 1);
    } else {
        assert(content.take(i) =~= content);
    }
}

/// Cuts the texts of a tool result, and gives the bytes that this saves.
pub fn truncate_tool_result_content(
    content: &mut Vec<Vec<JsonField>>,
    max_chars: usize,
    head_lines: usize,
    tail_lines: usize,
) -> (saved: usize)
    requires
        objects_bytes(conversation::contents_view(old(content)@)) <= usize::MAX,
    ensures
        conversation::contents_view(final(content)@) == cut_content(
            conversation::contents_view(old(content)@),
            limits(max_chars, head_lines, tail_lines),
        ),
        saved == objects_bytes(conversation::contents_view(old(content)@)) - objects_bytes(
            conversation::contents_view(final(content)@),
        ),
{
    let ghost l = limits(max_chars, head_lines, tail_lines);
    let ghost all = conversation::contents_view(content@);
    let mut saved: usize = 0;
    let mut i: usize = 0;
    while i < content.len()
        invariant
            l == limits(max_chars, head_lines, tail_lines),
            i <= content@.len(),
            content@.len() == all.len(),
            objects_bytes(all) <= usize::MAX,
            forall|k: int|
                0 <= k < i ==> json::fields_view((#[trigger] content@[k])@) == cut_object(
                    all[k],
                    l,
                ),
            forall|k: int|
                i <= k < all.len() ==> json::fields_view((#[trigger] content@[k])@) == all[k],
            saved == objects_bytes(all.take(i as int)) - objects_bytes(
                conversation::contents_view(content@).take(i as int),
            ),
        decreases all.len() - i,
    {
        let ghost before = conversation::contents_view(content@);
        proof {
            assert(json::fields_view(content@[i as int]@) == all[i as int]);
            lemma_objects_bytes_take(all, i + 1);
            assert(all.take(i + 1).drop_last() =~= all.take(i as int));
        }
        let n: usize = cut_object_text(
            &mut content[i],
            max_chars,
            head_lines,
            tail_lines);
        proof {
            let after = conversation::contents_view(content@);
            assert(after.take(i + 1).drop_last() =~= before.take(i as int));
        }
        saved = saved + n;
        i = i + 1;
    }
    assert(all.take(i as int) =~= all);
    assert(conversation::contents_view(content@).take(i as int) =~= conversation::contents_view(
        content@,
    ));
    assert(conversation::contents_view(content@) =~= cut_content(all, l));
    saved
}

proof fn lemma_results_bytes_take(results: Seq<ResultView>, i: int)
    requires
        0 <= i <= results.len(),
    ensures
        results_bytes(results.take(i)) <= results_bytes(results),
    decreases results.len() - i,
{
    if i < results.len() {
        assert(results.take(i + 1).drop_last() =~= results.take(i));
        lemma_results_bytes_take(results, i + 1);
    } else {
        assert(results.take(i) =~= results);
    }
}

fn cut_tool_results(
    results: &mut Vec<ToolResult>,
    max_chars: usize,
    head_lines: usize,
    tail_lines: usize,
) -> (saved: usize)
    requires
        results_bytes(conversation::results_view(old(results)@)) <= usize::MAX,
    ensures
        conversation::results_view(final(results)@) == cut_results(
            conversation::results_view(old(results)@),
            limits(max_chars, head_lines, tail_lines),
        ),
        saved == results_bytes(conversation::results_view(old(results)@)) - results_bytes(
            conversation::results_view(final(results)@),
        ),
{
    let ghost l = limits(max_chars, head_lines, tail_lines);
    let ghost all = conversation::results_view(results@);
    let mut saved: usize = 0;
    let mut i: usize = 0;
    while i < results.len()
        invariant
            l == limits(max_chars, head_lines, tail_lines),
            i <= results@.len(),
            results@.len() == all.len(),
            results_bytes(all) <= usize::MAX,
            forall|k: int| 0 <= k < i ==> (#[trigger] results@[k])@ == cut_results(all, l)[k],
            forall|k: int| i <= k < all.len() ==> (#[trigger] results@[k])@ == all[k],
            saved == results_bytes(all.take(i as int)) - results_bytes(
                conversation::results_view(results@).take(i as int),
            ),
        decreases all.len() - i,
    {
        let ghost before = conversation::results_view(results@);
        proof {
            assert(results@[i as int]@ == all[i as int]);
            lemma_results_bytes_take(all, i + 1);
            assert(all.take(i + 1).drop_last() =~= all.take(i as int));
        }
        let n: usize = truncate_tool_result_content(
            &mut results[i].content,
            max_chars,
            head_lines,
            tail_lines,
        );
        proof {
            let after = conversation::results_view(results@);
            assert(after.take(i + 1).drop_last() =~= before.take(i as int));
        }
        saved = saved + n;
        i = i + 1;
    }
    assert(all.take(i as int) =~= all);
    assert(conversation::results_view(results@).take(i as int) =~= conversation::results_view(
        results@,
    ));
    assert(conversation::results_view(results@) =~= cut_results(all, l));
    saved
}

fn cut_turn_results(
    msg: &mut Message,
    max_chars: usize,
    head_lines: usize,
    tail_lines: usize,
) -> (saved: usize)
    requires
        turn_result_bytes(old(msg)@) <= usize::MAX,
    ensures
        final(msg)@ == turn_with_cut_results(old(msg)@, limits(max_chars, head_lines, tail_lines)),
        saved == turn_result_bytes(old(msg)@) - turn_result_bytes(final(msg)@),
{
    match msg {
        Message::User(m) => cut_tool_results(
            &mut m.user_input_message.user_input_message_context.tool_results,
            max_chars,
            head_lines,
            tail_lines),
        Message::Assistant(_) => 0,
    }
}

proof fn lemma_turns_result_take(turns: Seq<TurnView>, i: int)
    requires
        0 <= i <= turns.len(),
    ensures
        turns_result_bytes(turns.take(i)) <= turns_result_bytes(turns),
    decreases turns.len() - i,
{
    if i < turns.len() {
        assert(turns.take(i + 1).drop_last() =~= turns.take(i));
        lemma_turns_result_take(turns, i + 1);
    } else {
        assert(turns.take(i) =~= turns);
    }
}

fn cut_turns_results(
    history: &mut Vec<Message>,
    max_chars: usize,
    head_lines: usize,
    tail_lines: usize,
) -> (saved: usize)
    requires
        turns_result_bytes(conversation::history_view(old(history)@)) <= usize::MAX,
    ensures
        conversation::history_view(final(history)@) == turns_with_cut_results(
            conversation::history_view(old(history)@),
            limits(max_chars, head_lines, tail_lines),
        ),
        saved == turns_result_bytes(conversation::history_view(old(history)@))
            - turns_result_bytes(conversation::history_view(final(history)@)),
{
    let ghost l = limits(max_chars, head_lines, tail_lines);
    let ghost all = conversation::history_view(history@);
    let mut saved: usize = 0;
    let mut i: usize = 0;
    while i < history.len()
        invariant
            l == limits(max_chars, head_lines, tail_lines),
            i <= history@.len(),
            history@.len() == all.len(),
            turns_result_bytes(all) <= usize::MAX,
            forall|k: int|
                0 <= k < i ==> (#[trigger] history@[k])@ == turn_with_cut_results(all[k], l),
            forall|k: int| i <= k < all.len() ==> (#[trigger] history@[k])@ == all[k],
            saved == turns_result_bytes(all.take(i as int)) - turns_result_bytes(
                conversation::history_view(history@).take(i as int),
            ),
        decreases all.len() - i,
    {
        let ghost before = conversation::history_view(history@);
        proof {
            assert(history@[i as int]@ == all[i as int]);
            lemma_turns_result_take(all, i + 1);
            assert(all.take(i + 1).drop_last() =~= all.take(i as int));
        }
        let n: usize = cut_turn_results(
            &mut history[i],
            max_chars,
            head_lines,
            tail_lines,
        );
        proof {
            let after = conversation::history_view(history@);
            assert(after.take(i + 1).drop_last() =~= before.take(i as int));
        }
        saved = saved + n;
        i = i + 1;
    }
    assert(all.take(i as int) =~= all);
    assert(conversation::history_view(history@).take(i as int) =~= conversation::history_view(
        history@,
    ));
    assert(conversation::history_view(history@) =~= turns_with_cut_results(all, l));
    saved
}

/// Cuts the tool results of a conversation, and gives the bytes that this saves.
pub fn compress_tool_results_pass(
    state: &mut ConversationState,
    max_chars: usize,
    head_lines: usize,
    tail_lines: usize,
) -> (saved: usize)
    requires
        result_bytes(old(state)@) <= usize::MAX,
    ensures
        final(state)@ == state_with_cut_results(
            old(state)@,
            limits(max_chars, head_lines, tail_lines),
        ),
        saved == result_bytes(old(state)@) - result_bytes(final(state)@),
{
    let past: usize = cut_turns_results(
        &mut state.history,
        max_chars,
        head_lines,
        tail_lines,
    );
    let current: usize = cut_tool_results(
        &mut state.current_message.user_input_message.user_input_message_context.tool_results,
        max_chars,
        head_lines,
        tail_lines,
    );
    past + current
}

// ---------------------------------------------------------------------------
// Inputs of tool calls
// ---------------------------------------------------------------------------

/// A tool call whose input has its strings cut where its text has more than `max_chars` characters.
pub open spec fn cut_tool_use(t: ToolUseView, max_chars: nat) -> ToolUseView {
    if json_text::compact(t.input).len() > max_chars {
        ToolUseView { input: truncation::cut_strings(t.input, max_chars), ..t }
    } else {
        t
    }
}

pub open spec fn cut_tool_uses(uses: Seq<ToolUseView>, max_chars: nat) -> Seq<ToolUseView> {
    uses.map_values(|t: ToolUseView| cut_tool_use(t, max_chars))
}

/// The bytes of the strings in the inputs of some tool calls.
pub open spec fn tool_uses_bytes(uses: Seq<ToolUseView>) -> nat
    decreases uses.len(),
{
    if uses.len() == 0 {
        0
    } else {
        tool_uses_bytes(uses.drop_last()) + truncation::string_bytes(uses.last().input)
    }
}

/// A turn with the inputs of its tool calls cut; only the assistant's turns have any.
pub open spec fn turn_with_cut_inputs(t: TurnView, max_chars: nat) -> TurnView {
    match t {
        TurnView::User(_) => t,
        TurnView::Assistant(a) => TurnView::Assistant(
            AssistantView {
                tool_uses: match a.tool_uses {
                    Some(uses) => Some(cut_tool_uses(uses, max_chars)),
                    None => None,
                },
                ..a
            },
        ),
    }
}

pub open spec fn turns_with_cut_inputs(turns: Seq<TurnView>, max_chars: nat) -> Seq<TurnView> {
    turns.map_values(|t: TurnView| turn_with_cut_inputs(t, max_chars))
}

/// A conversation with the inputs of its tool calls cut.
pub open spec fn state_with_cut_inputs(s: StateView, max_chars: nat) -> StateView {
    StateView { history: turns_with_cut_inputs(s.history, max_chars), ..s }
}

/// The bytes of the strings in the inputs of the tool calls of a turn.
pub open spec fn turn_input_bytes(t: TurnView) -> nat {
    match t {
        TurnView::User(_) => 0,
        TurnView::Assistant(a) => match a.tool_uses {
            Some(uses) => tool_uses_bytes(uses),
            None => 0,
        },
    }
}

pub open spec fn turns_input_bytes(turns: Seq<TurnView>) -> nat
    decreases turns.len(),
{
    if turns.len() == 0 {
        0
    } else {
        turns_input_bytes(turns.drop_last()) + turn_input_bytes(turns.last())
    }
}

/// The bytes of the strings in the inputs of the tool calls of a conversation.
pub open spec fn input_bytes(s: StateView) -> nat {
    turns_input_bytes(s.history)
}

proof fn lemma_tool_uses_bytes_take(uses: Seq<ToolUseView>, i: int)
    requires
        0 <= i <= uses.len(),
    ensures
        tool_uses_bytes(uses.take(i)) <= tool_uses_bytes(uses),
    decreases uses.len() - i,
{
    if i < uses.len() {
        assert(uses.take(i + 1).drop_last() =~= uses.take(i));
        lemma_tool_uses_bytes_take(uses, i + 1);
    } else {
        assert(uses.take(i) =~= uses);
    }
}

fn cut_uses(uses: &mut Vec<ToolUseEntry>, max_chars: usize) -> (saved: usize)
    requires
        tool_uses_bytes(conversation::tool_uses_view(old(uses)@)) <= usize::MAX,
    ensures
        conversation::tool_uses_view(final(uses)@) == cut_tool_uses(
            conversation::tool_uses_view(old(uses)@),
            max_chars as nat,
        ),
        saved == tool_uses_bytes(conversation::tool_uses_view(old(uses)@)) - tool_uses_bytes(
            conversation::tool_uses_view(final(uses)@),
        ),
{
    let ghost all = conversation::tool_uses_view(uses@);
    let mut saved: usize = 0;
    let mut i: usize = 0;
    while i < uses.len()
        invariant
            i <= uses@.len(),
            uses@.len() == all.len(),
            tool_uses_bytes(all) <= usize::MAX,
            forall|k: int|
                0 <= k < i ==> (#[trigger] uses@[k])@ == cut_tool_use(all[k], max_chars as nat),
            forall|k: int| i <= k < all.len() ==> (#[trigger] uses@[k])@ == all[k],
            saved == tool_uses_bytes(all.take(i as int)) - tool_uses_bytes(
                conversation::tool_uses_view(uses@).take(i as int),
            ),
        decreases all.len() - i,
    {
        let ghost before = conversation::tool_uses_view(uses@);
        proof {
            assert(uses@[i as int]@ == all[i as int]);
            lemma_tool_uses_bytes_take(all, i + 1);
            assert(all.take(i + 1).drop_last() =~= all.take(i as int));
        }
        let input_text = json_text::compact_json(&uses[i].input);
        if input_text.as_str().unicode_len() > max_chars {
            let n: usize = truncation::truncate_json_value_strings(&mut uses[i].input, max_chars);
            saved = saved + n;
        }
        proof {
            let after = conversation::tool_uses_view(uses@);
            assert(after.take(i + 1).drop_last() =~= before.take(i as int));
        }
        i = i + 1;
    }
    assert(all.take(i as int) =~= all);
    assert(conversation::tool_uses_view(uses@).take(i as int) =~= conversation::tool_uses_view(
        uses@,
    ));
    assert(conversation::tool_uses_view(uses@) =~= cut_tool_uses(all, max_chars as nat));
    saved
}

fn cut_turn_inputs(msg: &mut Message, max_chars: usize) -> (saved: usize)
    requires
        turn_input_bytes(old(msg)@) <= usize::MAX,
    ensures
        final(msg)@ == turn_with_cut_inputs(old(msg)@, max_chars as nat),
        saved == turn_input_bytes(old(msg)@) - turn_input_bytes(final(msg)@),
{
    match msg {
        Message::User(_) => 0,
        Message::Assistant(m) => match &mut m.assistant_response_message.tool_uses {
            Some(uses) => cut_uses(uses, max_chars),
            None => 0,
        },
    }
}

proof fn lemma_turns_input_take(turns: Seq<TurnView>, i: int)
    requires
        0 <= i <= turns.len(),
    ensures
        turns_input_bytes(turns.take(i)) <= turns_input_bytes(turns),
    decreases turns.len() - i,
{
    if i < turns.len() {
        assert(turns.take(i + 1).drop_last() =~= turns.take(i));
        lemma_turns_input_take(turns, i + 1);
    } else {
        assert(turns.take(i) =~= turns);
    }
}

/// Cuts the strings in the inputs of a conversation's tool calls, and gives the bytes that this
/// saves.
pub fn compress_tool_use_inputs_pass(state: &mut ConversationState, max_chars: usize) -> (saved:
    usize)
    requires
        input_bytes(old(state)@) <= usize::MAX,
    ensures
        final(state)@ == state_with_cut_inputs(old(state)@, max_chars as nat),
        saved == input_bytes(old(state)@) - input_bytes(final(state)@),
{
    let ghost all = conversation::history_view(state.history@);
    let mut saved: usize = 0;
    let mut i: usize = 0;
    while i < state.history.len()
        invariant
            state.conversation_id == old(state).conversation_id,
            state.current_message == old(state).current_message,
            i <= state.history@.len(),
            state.history@.len() == all.len(),
            turns_input_bytes(all) <= usize::MAX,
            forall|k: int|
                0 <= k < i ==> (#[trigger] state.history@[k])@ == turn_with_cut_inputs(
                    all[k],
                    max_chars as nat,
                ),
            forall|k: int| i <= k < all.len() ==> (#[trigger] state.history@[k])@ == all[k],
            saved == turns_input_bytes(all.take(i as int)) - turns_input_bytes(
                conversation::history_view(state.history@).take(i as int),
            ),
        decreases all.len() - i,
    {
        let ghost before = conversation::history_view(state.history@);
        proof {
            assert(state.history@[i as int]@ == all[i as int]);
            lemma_turns_input_take(all, i + 1);
            assert(all.take(i + 1).drop_last() =~= all.take(i as int));
        }
        let n: usize = cut_turn_inputs(&mut state.history[i], max_chars);
        proof {
            let after = conversation::history_view(state.history@);
            assert(after.take(i + 1).drop_last() =~= before.take(i as int));
        }
        saved = saved + n;
        i = i + 1;
    }
    assert(all.take(i as int) =~= all);
    assert(conversation::history_view(state.history@).take(i as int)
        =~= conversation::history_view(state.history@));
    assert(conversation::history_view(state.history@) =~= turns_with_cut_inputs(
        all,
        max_chars as nat,
    ));
    saved
}

// ---------------------------------------------------------------------------
// Conversations
// ---------------------------------------------------------------------------

/// A conversation as a configuration compresses it: white space, tool results, inputs of tool
/// calls.
pub open spec fn compressed_state(s: StateView, config: CompressionConfig) -> StateView {
    let a = if config.enabled && config.whitespace_compression {
        squeezed_state(s)
    } else {
        s
    };
    let b = if config.enabled && config.tool_result_max_chars > 0 {
        state_with_cut_results(
            a,
            limits(
                config.tool_result_max_chars,
                config.tool_result_head_lines,
                config.tool_result_tail_lines,
            ),
        )
    } else {
        a
    };
    if config.enabled && config.tool_use_input_max_chars > 0 {
        state_with_cut_inputs(b, config.tool_use_input_max_chars as nat)
    } else {
        b
    }
}

/// Each pass leaves alone what the others work on.
proof fn lemma_passes_are_apart(s: StateView, l: ResultLimits, max_chars: nat)
    ensures
        result_bytes(squeezed_state(s)) == result_bytes(s),
        input_bytes(squeezed_state(s)) == input_bytes(s),
        content_bytes(state_with_cut_results(s, l)) == content_bytes(s),
        input_bytes(state_with_cut_results(s, l)) == input_bytes(s),
        content_bytes(state_with_cut_inputs(s, max_chars)) == content_bytes(s),
        result_bytes(state_with_cut_inputs(s, max_chars)) == result_bytes(s),
{
    lemma_turns_apart(s.history, l, max_chars);
}

proof fn lemma_turns_apart(turns: Seq<TurnView>, l: ResultLimits, max_chars: nat)
    ensures
        turns_result_bytes(squeezed_turns(turns)) == turns_result_bytes(turns),
        turns_input_bytes(squeezed_turns(turns)) == turns_input_bytes(turns),
        turns_content_bytes(turns_with_cut_results(turns, l)) == turns_content_bytes(turns),
        turns_input_bytes(turns_with_cut_results(turns, l)) == turns_input_bytes(turns),
        turns_content_bytes(turns_with_cut_inputs(turns, max_chars)) == turns_content_bytes(turns),
        turns_result_bytes(turns_with_cut_inputs(turns, max_chars)) == turns_result_bytes(turns),
    decreases turns.len(),
{
    if turns.len() > 0 {
        let before = turns.drop_last();
        lemma_turns_apart(before, l, max_chars);
        assert(squeezed_turns(turns).drop_last() =~= squeezed_turns(before));
        assert(turns_with_cut_results(turns, l).drop_last() =~= turns_with_cut_results(before, l));
        assert(turns_with_cut_inputs(turns, max_chars).drop_last() =~= turns_with_cut_inputs(
            before,
            max_chars,
        ));
    }
}

/// Compresses a conversation, and gives the bytes that this saves.
pub fn compress(state: &mut ConversationState, config: &CompressionConfig) -> (stats:
    CompressionStats)
    requires
        config.enabled && config.whitespace_compression ==> content_bytes(old(state)@)
            <= usize::MAX,
        config.enabled && config.tool_result_max_chars > 0 ==> result_bytes(old(state)@)
            <= usize::MAX,
        config.enabled && config.tool_use_input_max_chars > 0 ==> input_bytes(old(state)@)
            <= usize::MAX,
    ensures
        final(state)@ == compressed_state(old(state)@, *config),
        stats.whitespace_saved == content_bytes(old(state)@) - content_bytes(final(state)@),
        stats.tool_result_saved == result_bytes(old(state)@) - result_bytes(final(state)@),
        stats.tool_use_input_saved == input_bytes(old(state)@) - input_bytes(final(state)@),
        stats.tool_definition_saved == 0,
{
    let mut stats = CompressionStats {
        whitespace_saved: 0,
        tool_result_saved: 0,
        tool_use_input_saved: 0,
        tool_definition_saved: 0,
    };
    if !config.enabled {
        return stats;
    }
    let ghost l = limits(
        config.tool_result_max_chars,
        config.tool_result_head_lines,
        config.tool_result_tail_lines,
    );
    let ghost n = config.tool_use_input_max_chars as nat;
    proof {
        lemma_passes_are_apart(state@, l, n);
    }
    if config.whitespace_compression {
        stats.whitespace_saved = compress_whitespace_pass(state);
    }
    proof {
        lemma_passes_are_apart(state@, l, n);
    }
    if config.tool_result_max_chars > 0 {
        stats.tool_result_saved = compress_tool_results_pass(
            state,
            config.tool_result_max_chars,
            config.tool_result_head_lines,
            config.tool_result_tail_lines,
        );
    }
    proof {
        lemma_passes_are_apart(state@, l, n);
    }
    if config.tool_use_input_max_chars > 0 {
        stats.tool_use_input_saved = compress_tool_use_inputs_pass(
            state,
            config.tool_use_input_max_chars,
        );
    }
    stats
}

// ---------------------------------------------------------------------------
// Requests
// ---------------------------------------------------------------------------

/// A conversation with the tool definitions of its current message compressed.
pub open spec fn state_with_compressed_tools(s: StateView, config: CompressionConfig) -> StateView {
    if config.enabled {
        StateView {
            current: UserView {
                tools: tool_compression::compressed_tools(
                    s.current.tools,
                    config.tool_definition_max_bytes as nat,
                ),
                ..s.current
            },
            ..s
        }
    } else {
        s
    }
}

/// Compresses a request, its tool definitions first, and gives the bytes that this saves.
pub fn compress_kiro_request(request: &mut KiroRequest, config: &CompressionConfig) -> (stats:
    CompressionStats)
    requires
        config.enabled && config.whitespace_compression ==> content_bytes(old(request)@.state)
            <= usize::MAX,
        config.enabled && config.tool_result_max_chars > 0 ==> result_bytes(old(request)@.state)
            <= usize::MAX,
        config.enabled && config.tool_use_input_max_chars > 0 ==> input_bytes(old(request)@.state)
            <= usize::MAX,
        config.enabled && config.tool_definition_max_bytes > 0 ==> tool_compression::tools_bytes(
            old(request)@.state.current.tools,
        ) <= usize::MAX,
    ensures
        final(request)@ == (KiroView {
            state: compressed_state(
                state_with_compressed_tools(old(request)@.state, *config),
                *config,
            ),
            ..old(request)@
        }),
        stats.whitespace_saved == content_bytes(old(request)@.state) - content_bytes(
            final(request)@.state,
        ),
        stats.tool_result_saved == result_bytes(old(request)@.state) - result_bytes(
            final(request)@.state,
        ),
        stats.tool_use_input_saved == input_bytes(old(request)@.state) - input_bytes(
            final(request)@.state,
        ),
        stats.tool_definition_saved == tool_compression::tools_bytes(
            old(request)@.state.current.tools,
        ) - tool_compression::tools_bytes(final(request)@.state.current.tools),
{
    let mut stats = CompressionStats {
        whitespace_saved: 0,
        tool_result_saved: 0,
        tool_use_input_saved: 0,
        tool_definition_saved: 0,
    };
    if !config.enabled {
        return stats;
    }
    let ghost given = request@.state.current.tools;
    let ghost max_bytes = config.tool_definition_max_bytes as nat;
    proof {
        tool_compression::law_compressed_tools_are_not_larger(given, max_bytes);
    }
    if config.tool_definition_max_bytes > 0 {
        let message = &mut request.conversation_state.current_message.user_input_message;
        let tools = &mut message.user_input_message_context.tools;
        if tools.len() > 0 {
            let before: usize = tool_compression::estimate_tools_size(tools.as_slice());
            let smaller = tool_compression::compress_tools_if_needed(
                tools.as_slice(),
                config.tool_definition_max_bytes,
            );
            let after: usize = tool_compression::estimate_tools_size(smaller.as_slice());
            *tools = smaller;
            stats.tool_definition_saved = before.saturating_sub(after);
        }
    }
    assert(request@.state.current.tools == tool_compression::compressed_tools(given, max_bytes)) by {
        if max_bytes > 0 && given.len() == 0 {
            assert(tool_compression::tools_bytes(given) == 0);
        }
    }
    assert(request@.state == state_with_compressed_tools(old(request)@.state, *config));
    let body = compress(&mut request.conversation_state, config);
    stats.whitespace_saved = body.whitespace_saved;
    stats.tool_result_saved = body.tool_result_saved;
    stats.tool_use_input_saved = body.tool_use_input_saved;
    stats
}

} // verus!
