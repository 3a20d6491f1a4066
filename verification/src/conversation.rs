//! The conversation that is sent upstream.

use vstd::prelude::*;

use crate::json;
use crate::json::{FieldView, Json, JsonField, JsonView};
use crate::request;

verus! {

/// A request to the upstream.
pub struct KiroRequest {
    pub conversation_state: ConversationState,
    pub profile_arn: Option<String>,
    /// What else the model is to be sent.
    pub additional_model_request_fields: Option<Json>,
}

/// A conversation: what was said, and the message to be answered.
pub struct ConversationState {
    pub conversation_id: String,
    pub current_message: CurrentMessage,
    pub history: Vec<Message>,
}

/// The message to be answered.
pub struct CurrentMessage {
    pub user_input_message: UserInputMessage,
}

/// What the user says, with its context.
pub struct UserInputMessage {
    pub content: String,
    pub model_id: String,
    pub user_input_message_context: UserInputMessageContext,
}

/// A past turn.
pub enum Message {
    User(HistoryUserMessage),
    Assistant(HistoryAssistantMessage),
}

/// A past turn of the user.
pub struct HistoryUserMessage {
    pub user_input_message: UserMessage,
}

/// What the user said, with its context.
pub struct UserMessage {
    pub content: String,
    pub model_id: String,
    pub user_input_message_context: UserInputMessageContext,
}

/// A past turn of the assistant.
pub struct HistoryAssistantMessage {
    pub assistant_response_message: AssistantMessage,
}

/// What the assistant said, and the tools it called.
pub struct AssistantMessage {
    pub content: String,
    pub tool_uses: Option<Vec<ToolUseEntry>>,
}

/// A tool call.
pub struct ToolUseEntry {
    pub tool_use_id: String,
    pub name: String,
    pub input: Json,
}

/// The tools that may be called, and the results of tool calls.
pub struct UserInputMessageContext {
    pub tools: Vec<Tool>,
    pub tool_results: Vec<ToolResult>,
}

/// The result of a tool call: a list of objects.
pub struct ToolResult {
    pub tool_use_id: String,
    pub content: Vec<Vec<JsonField>>,
}

/// A tool.
pub struct Tool {
    pub tool_specification: ToolSpecification,
}

/// The definition of a tool.
pub struct ToolSpecification {
    pub name: String,
    pub description: String,
    pub input_schema: InputSchema,
}

/// The schema of a tool's input.
pub struct InputSchema {
    pub json: Json,
}

/// What is compressed, and how far.
#[derive(Debug, Clone, Copy)]
pub struct CompressionConfig {
    /// Whether anything is compressed.
    pub enabled: bool,
    /// Whether white space is compressed.
    pub whitespace_compression: bool,
    /// The most characters of a tool result; no limit where it is zero.
    pub tool_result_max_chars: usize,
    /// The lines kept at the head of a tool result that is cut.
    pub tool_result_head_lines: usize,
    /// The lines kept at the tail of a tool result that is cut.
    pub tool_result_tail_lines: usize,
    /// The most characters of a tool call's input; no limit where it is zero.
    pub tool_use_input_max_chars: usize,
    /// The most bytes of all tool definitions; no limit where it is zero.
    pub tool_definition_max_bytes: usize,
}

// ---------------------------------------------------------------------------
// What a conversation holds
// ---------------------------------------------------------------------------

/// What a [`Tool`] holds.
#[verifier::ext_equal]
pub struct ToolView {
    pub name: Seq<char>,
    pub description: Seq<char>,
    pub schema: JsonView,
}

/// What a [`ToolResult`] holds.
#[verifier::ext_equal]
pub struct ResultView {
    pub tool_use_id: Seq<char>,
    pub content: Seq<Seq<FieldView>>,
}

/// What a [`ToolUseEntry`] holds.
#[verifier::ext_equal]
pub struct ToolUseView {
    pub tool_use_id: Seq<char>,
    pub name: Seq<char>,
    pub input: JsonView,
}

/// What a [`UserMessage`] or a [`UserInputMessage`] holds.
#[verifier::ext_equal]
pub struct UserView {
    pub content: Seq<char>,
    pub model_id: Seq<char>,
    pub tools: Seq<ToolView>,
    pub tool_results: Seq<ResultView>,
}

/// What an [`AssistantMessage`] holds.
#[verifier::ext_equal]
pub struct AssistantView {
    pub content: Seq<char>,
    pub tool_uses: Option<Seq<ToolUseView>>,
}

/// What a [`Message`] holds.
#[verifier::ext_equal]
pub enum TurnView {
    User(UserView),
    Assistant(AssistantView),
}

/// What a [`ConversationState`] holds.
#[verifier::ext_equal]
pub struct StateView {
    pub conversation_id: Seq<char>,
    pub current: UserView,
    pub history: Seq<TurnView>,
}

/// What a [`KiroRequest`] holds.
#[verifier::ext_equal]
pub struct KiroView {
    pub state: StateView,
    pub profile_arn: Option<Seq<char>>,
    pub additional_model_request_fields: Option<JsonView>,
}

impl View for Tool {
    type V = ToolView;

    open spec fn view(&self) -> ToolView {
        ToolView {
            name: self.tool_specification.name@,
            description: self.tool_specification.description@,
            schema: self.tool_specification.input_schema.json@,
        }
    }
}

pub open spec fn contents_view(content: Seq<Vec<JsonField>>) -> Seq<Seq<FieldView>> {
    content.map_values(|o: Vec<JsonField>| json::fields_view(o@))
}

impl View for ToolResult {
    type V = ResultView;

    open spec fn view(&self) -> ResultView {
        ResultView { tool_use_id: self.tool_use_id@, content: contents_view(self.content@) }
    }
}

impl View for ToolUseEntry {
    type V = ToolUseView;

    open spec fn view(&self) -> ToolUseView {
        ToolUseView { tool_use_id: self.tool_use_id@, name: self.name@, input: self.input@ }
    }
}

pub open spec fn tools_view(tools: Seq<Tool>) -> Seq<ToolView> {
    tools.map_values(|t: Tool| t@)
}

pub open spec fn results_view(results: Seq<ToolResult>) -> Seq<ResultView> {
    results.map_values(|r: ToolResult| r@)
}

pub open spec fn tool_uses_view(tool_uses: Seq<ToolUseEntry>) -> Seq<ToolUseView> {
    tool_uses.map_values(|t: ToolUseEntry| t@)
}

impl View for UserMessage {
    type V = UserView;

    open spec fn view(&self) -> UserView {
        UserView {
            content: self.content@,
            model_id: self.model_id@,
            tools: tools_view(self.user_input_message_context.tools@),
            tool_results: results_view(self.user_input_message_context.tool_results@),
        }
    }
}

impl View for UserInputMessage {
    type V = UserView;

    open spec fn view(&self) -> UserView {
        UserView {
            content: self.content@,
            model_id: self.model_id@,
            tools: tools_view(self.user_input_message_context.tools@),
            tool_results: results_view(self.user_input_message_context.tool_results@),
        }
    }
}

impl View for AssistantMessage {
    type V = AssistantView;

    open spec fn view(&self) -> AssistantView {
        AssistantView {
            content: self.content@,
            tool_uses: match self.tool_uses {
                Some(t) => Some(tool_uses_view(t@)),
                None => None,
            },
        }
    }
}

impl View for Message {
    type V = TurnView;

    open spec fn view(&self) -> TurnView {
        match self {
            Message::User(m) => TurnView::User(m.user_input_message@),
            Message::Assistant(m) => TurnView::Assistant(m.assistant_response_message@),
        }
    }
}

pub open spec fn history_view(history: Seq<Message>) -> Seq<TurnView> {
    history.map_values(|m: Message| m@)
}

impl View for ConversationState {
    type V = StateView;

    open spec fn view(&self) -> StateView {
        StateView {
            conversation_id: self.conversation_id@,
            current: self.current_message.user_input_message@,
            history: history_view(self.history@),
        }
    }
}

impl View for KiroRequest {
    type V = KiroView;

    open spec fn view(&self) -> KiroView {
        KiroView {
            state: self.conversation_state@,
            profile_arn: request::optional_text(self.profile_arn),
            additional_model_request_fields: request::optional_json(
                self.additional_model_request_fields,
            ),
        }
    }
}

} // verus!
