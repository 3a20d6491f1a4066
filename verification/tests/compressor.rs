use prompt_relay::compressor::{compress, compress_kiro_request, CompressionStats};
use prompt_relay::conversation::{
    AssistantMessage, CompressionConfig, ConversationState, CurrentMessage,
    HistoryAssistantMessage, HistoryUserMessage, InputSchema, KiroRequest, Message, Tool,
    ToolResult, ToolSpecification, ToolUseEntry, UserInputMessage, UserInputMessageContext,
    UserMessage,
};
use prompt_relay::json::{Json, JsonField};
use prompt_relay::truncation::{
    compress_string_field, compress_whitespace, safe_char_truncate, smart_truncate_by_lines,
    tail_by_chars, truncate_json_value_strings, truncate_preserving_head_tail,
};

const MODEL: &str = "sonnet-4.5";

fn config() -> CompressionConfig {
    CompressionConfig {
        enabled: true,
        whitespace_compression: true,
        tool_result_max_chars: 8_000,
        tool_result_head_lines: 80,
        tool_result_tail_lines: 40,
        tool_use_input_max_chars: 6_000,
        tool_definition_max_bytes: 20 * 1024,
    }
}

fn field(key: &str, value: Json) -> JsonField {
    JsonField { key: key.to_string(), value }
}

fn text(s: &str) -> Json {
    Json::Text(s.to_string())
}

fn context(tools: Vec<Tool>, tool_results: Vec<ToolResult>) -> UserInputMessageContext {
    UserInputMessageContext { tools, tool_results }
}

fn success(id: &str, body: &str) -> ToolResult {
    ToolResult { tool_use_id: id.to_string(), content: vec![vec![field("text", text(body))]] }
}

fn current(content: &str, context: UserInputMessageContext) -> CurrentMessage {
    CurrentMessage {
        user_input_message: UserInputMessage {
            content: content.to_string(),
            model_id: MODEL.to_string(),
            user_input_message_context: context,
        },
    }
}

fn user_turn(content: &str, results: Vec<ToolResult>) -> Message {
    Message::User(HistoryUserMessage {
        user_input_message: UserMessage {
            content: content.to_string(),
            model_id: MODEL.to_string(),
            user_input_message_context: context(vec![], results),
        },
    })
}

fn assistant_turn(content: &str, tool_uses: Option<Vec<ToolUseEntry>>) -> Message {
    Message::Assistant(HistoryAssistantMessage {
        assistant_response_message: AssistantMessage { content: content.to_string(), tool_uses },
    })
}

fn conversation(current_message: CurrentMessage, history: Vec<Message>) -> ConversationState {
    ConversationState { conversation_id: "conversation".to_string(), current_message, history }
}

fn result_text(state: &ConversationState) -> &str {
    let results =
        &state.current_message.user_input_message.user_input_message_context.tool_results;
    let content = &results[0].content[0];
    content.iter().find(|f| f.key == "text").and_then(|f| f.value.as_str()).unwrap()
}

#[test]
fn low_risk_compression_compacts_whitespace_and_truncates_tool_payloads() {
    let tool_use = ToolUseEntry {
        tool_use_id: "toolu_1".to_string(),
        name: "fs_write".to_string(),
        input: Json::Object(vec![
            field("path", text("/tmp/large.txt")),
            field("text", text(&"a".repeat(1000))),
        ]),
    };
    let mut state = conversation(
        current(
            "current  \n\n\n\nmessage",
            context(vec![], vec![success("toolu_1", &"first\n".repeat(300))]),
        ),
        vec![
            user_turn("line 1  \n\n\n\nline 2", vec![]),
            assistant_turn("using tool", Some(vec![tool_use])),
        ],
    );

    let stats = compress(
        &mut state,
        &CompressionConfig {
            tool_result_max_chars: 120,
            tool_result_head_lines: 2,
            tool_result_tail_lines: 2,
            tool_use_input_max_chars: 80,
            ..config()
        },
    );

    assert!(stats.whitespace_saved > 0);
    assert!(stats.tool_result_saved > 0);
    assert!(stats.tool_use_input_saved > 0);

    if let Message::User(user) = &state.history[0] {
        assert_eq!(user.user_input_message.content, "line 1\n\nline 2");
    } else {
        panic!("expected user history");
    }

    let cut = result_text(&state);
    assert!(cut.chars().count() <= 120);
    assert!(cut.contains("omitted"));

    if let Message::Assistant(assistant) = &state.history[1] {
        let tool_uses = assistant.assistant_response_message.tool_uses.as_ref().unwrap();
        let body = tool_uses[0].input.get("text").unwrap().as_str().unwrap();
        assert!(body.chars().count() <= 80 + 32);
        assert!(body.contains("truncated") || body == "a".repeat(80));
    } else {
        panic!("expected assistant history");
    }
}

#[test]
fn whitespace_compression_does_not_turn_blank_message_into_empty_string() {
    let mut state = conversation(current("   \n\n", context(vec![], vec![])), vec![]);

    let stats = compress(
        &mut state,
        &CompressionConfig {
            tool_result_max_chars: 0,
            tool_use_input_max_chars: 0,
            tool_definition_max_bytes: 0,
            ..config()
        },
    );

    assert_eq!(stats.whitespace_saved, 0);
    assert_eq!(state.current_message.user_input_message.content, "   \n\n");
}

#[test]
fn compression_does_not_modify_thinking_or_remove_history_turns() {
    let mut state = conversation(
        current("current", context(vec![], vec![])),
        vec![
            user_turn("old user", vec![]),
            assistant_turn("<thinking>private chain of thought</thinking>answer", None),
        ],
    );

    compress(&mut state, &config());

    assert_eq!(state.history.len(), 2);

    if let Message::Assistant(assistant) = &state.history[1] {
        assert!(assistant
            .assistant_response_message
            .content
            .contains("<thinking>private chain of thought</thinking>"));
    } else {
        panic!("expected assistant history");
    }
}

#[test]
fn tool_result_truncation_preserves_tail_when_line_marker_is_too_large() {
    let body = format!("{}\n{}\n{}", "head".repeat(60), "middle\n".repeat(200), "tail".repeat(60));
    let mut state = conversation(
        current("current", context(vec![], vec![success("toolu_1", &body)])),
        vec![],
    );

    compress(
        &mut state,
        &CompressionConfig {
            tool_result_max_chars: 120,
            tool_result_head_lines: 80,
            tool_result_tail_lines: 40,
            ..config()
        },
    );

    let cut = result_text(&state);
    assert!(cut.chars().count() <= 120);
    assert!(cut.contains("head"));
    assert!(cut.contains("tail"));
}

#[test]
fn tool_result_line_truncation_does_not_panic_on_extreme_line_config() {
    let body = format!("{}\n{}", "head".repeat(50), "tail".repeat(50));
    let mut state = conversation(
        current("current", context(vec![], vec![success("toolu_1", &body)])),
        vec![],
    );

    compress(
        &mut state,
        &CompressionConfig {
            tool_result_max_chars: 120,
            tool_result_head_lines: usize::MAX,
            tool_result_tail_lines: usize::MAX,
            ..config()
        },
    );

    assert!(result_text(&state).chars().count() <= 120);
}

fn schema() -> Json {
    Json::Object(vec![
        field("type", text("object")),
        field(
            "properties",
            Json::Object(vec![field(
                "path",
                Json::Object(vec![
                    field("type", text("string")),
                    field("description", text("long schema description")),
                ]),
            )]),
        ),
        field("required", Json::Array(vec![text("path")])),
    ])
}

fn twenty_tools() -> Vec<Tool> {
    (0..20)
        .map(|idx| Tool {
            tool_specification: ToolSpecification {
                name: format!("tool_{idx}"),
                description: "x".repeat(2_000),
                input_schema: InputSchema { json: schema() },
            },
        })
        .collect()
}

#[test]
fn compress_kiro_request_compresses_tool_definitions() {
    let mut request = KiroRequest {
        conversation_state: conversation(
            current("current", context(twenty_tools(), vec![])),
            vec![],
        ),
        profile_arn: None,
        additional_model_request_fields: None,
    };

    let stats = compress_kiro_request(
        &mut request,
        &CompressionConfig { tool_definition_max_bytes: 20 * 1024, ..config() },
    );

    assert!(stats.tool_definition_saved > 0);
    let message = &request.conversation_state.current_message.user_input_message;
    let path_schema = message.user_input_message_context.tools[0]
        .tool_specification
        .input_schema
        .json
        .get("properties")
        .unwrap()
        .get("path")
        .unwrap();
    assert!(path_schema.get("description").is_none());
}

// ---------------------------------------------------------------------------
// White space
// ---------------------------------------------------------------------------

#[test]
fn white_space_is_compressed_as_documented() {
    assert_eq!(compress_whitespace("a  \nb"), "a\nb");
    assert_eq!(compress_whitespace("a\n\n\n\n\nb"), "a\n\nb");
    assert_eq!(compress_whitespace("  a"), "  a");
    assert_eq!(compress_whitespace(""), "");
    assert_eq!(compress_whitespace("a\u{3000}\nb"), "a\nb");
}

#[test]
fn compressing_white_space_twice_changes_nothing_more() {
    for s in ["", "a", "a \n\n\n b\t\n\n\n", "\n\n\n", "x\r\n\r\n\r\ny", " \n \n \n z"] {
        let once = compress_whitespace(s);
        assert_eq!(compress_whitespace(&once), once);
    }
}

#[test]
fn compressed_texts_are_tidy() {
    for s in ["", "\n\na\n\n\n b \n\t\nc\n\n\n", "a", "\n", "  a\nb\n\n", "x \n y\n\n \nz"] {
        let c = compress_whitespace(s);
        assert!(c.len() <= s.len());
        assert!(!c.starts_with('\n'));
        assert!(!c.ends_with("\n\n"));
        assert!(!c.contains("\n\n\n"));
        let solid = |t: &str| -> Vec<String> {
            t.split('\n').map(|l| l.trim_end().to_string()).filter(|l| !l.is_empty()).collect()
        };
        assert_eq!(solid(&c), solid(s));
    }
    assert_eq!(compress_whitespace("\n\na\n\n\n b \n\t\nc\nd\n\n\n"), "a\n\n b\n\nc\nd\n");
}

#[test]
fn string_fields_report_the_bytes_saved() {
    let mut s = "é  \n\n\n\nb".to_string();
    let before = s.len();
    let saved = compress_string_field(&mut s);
    assert_eq!(s, "é\n\nb");
    assert_eq!(saved, before - s.len());

    let mut blank = " \n\n\n ".to_string();
    assert_eq!(compress_string_field(&mut blank), 0);
    assert_eq!(blank, " \n\n\n ");

    let mut clean = "clean".to_string();
    assert_eq!(compress_string_field(&mut clean), 0);
    assert_eq!(clean, "clean");
}

// ---------------------------------------------------------------------------
// Cutting text
// ---------------------------------------------------------------------------

#[test]
fn heads_and_tails_are_cut_at_characters() {
    assert_eq!(safe_char_truncate("héllo", 2), "hé");
    assert_eq!(safe_char_truncate("héllo", 9), "héllo");
    assert_eq!(safe_char_truncate("héllo", 0), "");
    assert_eq!(tail_by_chars("héllo", 4), "éllo");
    assert_eq!(tail_by_chars("héllo", 9), "héllo");
    assert_eq!(tail_by_chars("héllo", 0), "");
}

#[test]
fn texts_that_fit_are_left_alone() {
    assert_eq!(truncate_preserving_head_tail("short", 5), "short");
    let (kept, saved) = smart_truncate_by_lines("a\nb\nc", 5, 1, 1);
    assert_eq!(kept, "a\nb\nc");
    assert_eq!(saved, 0);
}

#[test]
fn cut_texts_fit_and_keep_both_ends() {
    let body: String = (0..100).map(|i| format!("line number {i}\n")).collect();
    for max_chars in [1usize, 10, 40, 80, 120, 500] {
        let (cut, saved) = smart_truncate_by_lines(&body, max_chars, 3, 2);
        assert!(cut.chars().count() <= max_chars);
        assert_eq!(saved, body.len() - cut.len());
    }
    let (cut, _) = smart_truncate_by_lines(&body, 200, 3, 2);
    assert!(cut.starts_with("line number 0\nline number 1\nline number 2\n"));
    assert!(cut.ends_with("line number 98\nline number 99"));
    assert!(cut.contains("omitted"));
}

#[test]
fn strings_inside_a_value_are_cut_and_its_shape_stays() {
    let mut value = Json::Object(vec![
        field("n", Json::Number("12".to_string())),
        field("s", text(&"é".repeat(300))),
        field("list", Json::Array(vec![text("short"), Json::Null, Json::Bool(true)])),
    ]);
    let saved = truncate_json_value_strings(&mut value, 100);
    let cut = value.get("s").unwrap().as_str().unwrap();
    assert!(cut.starts_with(&"é".repeat(100)));
    assert!(!cut.starts_with(&"é".repeat(101)));
    assert_eq!(saved, 600 - cut.len());
    assert!(matches!(value.get("n"), Some(Json::Number(n)) if n == "12"));
    match value.get("list").unwrap() {
        Json::Array(items) => {
            assert_eq!(items.len(), 3);
            assert_eq!(items[0].as_str(), Some("short"));
            assert!(matches!(items[1], Json::Null));
            assert!(matches!(items[2], Json::Bool(true)));
        }
        other => panic!("expected a list, got {other:?}"),
    }
}

// ---------------------------------------------------------------------------
// Whole conversations
// ---------------------------------------------------------------------------

#[test]
fn disabled_compression_changes_nothing() {
    let mut state = conversation(
        current("a  \n\n\n\nb", context(vec![], vec![success("t", &"x\n".repeat(9_000))])),
        vec![user_turn("c  \n\n\n\nd", vec![])],
    );
    let stats = compress(&mut state, &CompressionConfig { enabled: false, ..config() });
    assert_eq!(stats, CompressionStats::default());
    assert_eq!(stats.total_saved(), 0);
    assert_eq!(state.current_message.user_input_message.content, "a  \n\n\n\nb");
    assert_eq!(result_text(&state), "x\n".repeat(9_000));

    let mut request = KiroRequest {
        conversation_state: conversation(
            current("current", context(twenty_tools(), vec![])),
            vec![],
        ),
        profile_arn: None,
        additional_model_request_fields: None,
    };
    let stats =
        compress_kiro_request(&mut request, &CompressionConfig { enabled: false, ..config() });
    assert_eq!(stats.total_saved(), 0);
}

#[test]
fn past_tool_results_are_cut_too() {
    let mut state = conversation(
        current("current", context(vec![], vec![])),
        vec![user_turn("past", vec![success("t", &"word ".repeat(100))])],
    );
    let stats = compress(&mut state, &CompressionConfig { tool_result_max_chars: 50, ..config() });
    match &state.history[0] {
        Message::User(user) => {
            let results = &user.user_input_message.user_input_message_context.tool_results;
            let cut = results[0].content[0][0].value.as_str().unwrap();
            assert!(cut.chars().count() <= 50);
            assert_eq!(stats.tool_result_saved, 500 - cut.len());
            assert_eq!(stats.total_saved(), 500 - cut.len());
        }
        Message::Assistant(_) => panic!("expected user history"),
    }
}

#[test]
fn savings_add_up() {
    let stats = CompressionStats {
        whitespace_saved: 1,
        tool_result_saved: 20,
        tool_use_input_saved: 300,
        tool_definition_saved: 4_000,
    };
    assert_eq!(stats.total_saved(), 4_321);
}
