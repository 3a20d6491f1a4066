use base64::engine::general_purpose::STANDARD as B64;
use base64::Engine;
use image::{ImageFormat, Rgb, RgbImage};
use prompt_relay::json::{Json, JsonField};
use prompt_relay::meter::{now_secs, CacheMeter};
use prompt_relay::prompt::{parse_ttl, tool_signature, TokenSource};
use prompt_relay::request::{
    CacheControl, Message, MessagesRequest, Metadata, SchemaMap, SystemMessage, Tool,
};
use prompt_relay::segments::{extract_segments, token_sources, tokens_from_estimate};
use prompt_relay::usage::{
    compute_cache_usage, compute_cache_usage_at, minimum_cacheable_tokens_for_model, CacheUsage,
    CacheUsagePlan,
};
use std::io::Cursor;

/// Four characters to a token, and two tokens to three Chinese characters.
fn estimate_tokens(text: &str) -> i32 {
    let chinese = text.chars().filter(|c| ('\u{4e00}'..='\u{9fff}').contains(c)).count();
    let other = text.chars().count() - chinese;
    (((chinese * 2 + 2) / 3 + (other + 3) / 4).max(1)) as i32
}

/// The pixels of a PNG, 750 to a token.
fn estimate_image_tokens(_media_type: &str, data: &str) -> u32 {
    match B64.decode(data) {
        Ok(bytes) if bytes.len() >= 24 => {
            let w = u32::from_be_bytes([bytes[16], bytes[17], bytes[18], bytes[19]]);
            let h = u32::from_be_bytes([bytes[20], bytes[21], bytes[22], bytes[23]]);
            w * h / 750
        }
        _ => 1,
    }
}

fn counts_for(req: &MessagesRequest) -> Vec<u32> {
    token_sources(req)
        .iter()
        .map(|source| match source {
            TokenSource::Text(text) => tokens_from_estimate(estimate_tokens(text)),
            TokenSource::Image { media_type, data } => estimate_image_tokens(media_type, data),
        })
        .collect()
}

fn plan(cache: &mut CacheMeter, req: &MessagesRequest, credential_id: u64) -> CacheUsagePlan {
    compute_cache_usage(cache, req, credential_id, &counts_for(req))
}

fn text(s: &str) -> Json {
    Json::Text(s.to_string())
}

fn object(fields: Vec<(&str, Json)>) -> Json {
    Json::Object(
        fields
            .into_iter()
            .map(|(key, value)| JsonField { key: key.to_string(), value })
            .collect(),
    )
}

fn new_cache() -> CacheMeter {
    CacheMeter::new(None)
}

#[test]
fn lookup_miss_then_record_then_hit() {
    let mut cache = CacheMeter::new(None);
    let hashes = [1u64, 2u64];
    let tokens = [10u32, 25u32];
    let r1 = cache.lookup(&hashes, &tokens);
    assert!(r1.iter().all(|s| !s.hit));

    cache.record(&hashes, &tokens, 300);
    let r2 = cache.lookup(&hashes, &tokens);
    assert!(r2.iter().all(|s| s.hit));
}

#[test]
fn record_does_not_extend_existing_entry_ttl() {
    let mut cache = CacheMeter::new(None);
    let hash = [42u64];
    let tokens = [100u32];
    cache.record(&hash, &tokens, 300);
    let first_expires_at = cache.entry(42).unwrap().expires_at;

    cache.record(&hash, &tokens, 3600);
    let second_expires_at = cache.entry(42).unwrap().expires_at;

    assert_eq!(
        second_expires_at, first_expires_at,
        "rewriting an existing prefix must not extend prompt cache ttl"
    );
}

#[test]
fn ttl_expiry_makes_entry_miss() {
    let mut cache = CacheMeter::new(None);
    cache.record(&[42], &[100], 60);
    let expires_at = cache.entry(42).unwrap().expires_at;
    let r = cache.lookup_at(&[42], &[100], expires_at + 1);
    assert!(!r[0].hit);
    let r = cache.lookup_at(&[42], &[100], expires_at);
    assert!(!r[0].hit);
    let r = cache.lookup_at(&[42], &[100], expires_at - 1);
    assert!(r[0].hit);
}

#[test]
fn evict_expired_removes_dead_entries() {
    let mut cache = CacheMeter::new(None);
    cache.record(&[1, 2], &[5, 5], 60);
    cache.evict_expired();
    assert_eq!(cache.len(), 2);
    cache.evict_expired_at(now_secs() + 61);
    assert_eq!(cache.len(), 0);
}

#[test]
fn parse_ttl_handles_known_values() {
    assert_eq!(parse_ttl(Some("1h")), 3600);
    assert_eq!(parse_ttl(Some("5m")), 300);
    assert_eq!(parse_ttl(None), 300);
    assert_eq!(parse_ttl(Some("garbage")), 300);
}

#[test]
fn flush_and_reload_round_trip() {
    let mut cache = CacheMeter::new(None);
    cache.record(&[7], &[42], 600);
    let snapshot = cache.take_snapshot();
    assert!(snapshot.is_some());

    let mut cache2 = CacheMeter::new(snapshot);
    let r = cache2.lookup(&[7], &[42]);
    assert!(r[0].hit);
}

fn build_request_with_system_breakpoint() -> MessagesRequest {
    MessagesRequest {
        model: "sonnet-4-5-20250929".to_string(),
        max_tokens: 32,
        messages: vec![Message { role: "user".to_string(), content: text("Hello") }],
        stream: false,
        system: Some(vec![SystemMessage {
            text: "You are a helpful assistant. ".repeat(300),
            cache_control: Some(CacheControl { cache_type: "ephemeral".to_string(), ttl: None }),
        }]),
        tools: None,
        tool_choice: None,
        thinking: None,
        output_config: None,
        metadata: None,
    }
}

#[test]
fn compute_cache_usage_first_miss_then_hit() {
    let mut cache = new_cache();
    let req = build_request_with_system_breakpoint();

    let u1 = plan(&mut cache, &req, 1);
    assert!(u1.cache_covered_est > 0, "first call should cover prefix");
    assert_eq!(u1.cache_read, 0, "first call has nothing cached to read");
    let total = u1.prompt_total_est;
    let (in1, cc1, cr1) = u1.split_against_total(total);
    assert!(cc1 > 0, "first call creation>0, cc={}", cc1);
    assert_eq!(cr1, 0);
    assert_eq!(in1 + cc1 + cr1, total, "互斥口径必须自洽");
    u1.commit_success(&mut cache);

    let u2 = plan(&mut cache, &req, 1);
    assert!(u2.cache_read > 0, "second call should hit");
    let (in2, cc2, cr2) = u2.split_against_total(total);
    assert_eq!(cc2, 0, "second call creation should be 0, got {}", cc2);
    assert!(cr2 > 0, "second call read>0, cr={}", cr2);
    assert_eq!(in2 + cc2 + cr2, total, "互斥口径必须自洽");
    assert_eq!(cc1, cr2);
}

#[test]
fn split_against_total_is_mutually_exclusive() {
    let u = CacheUsage {
        cache_read: 30,
        cache_covered_est: 80,
        prompt_total_est: 100,
        cache_creation_5m: 50,
        cache_creation_1h: 0,
    };
    let (input, creation, read) = u.split_against_total(1000);
    assert_eq!(input + creation + read, 1000);
    assert_eq!(input, 200, "尾部 20% 是未缓存 input");
    assert_eq!(read, 300);
    assert_eq!(creation, 500);
}

#[test]
fn split_against_total_no_cache_all_input() {
    let u = CacheUsage {
        cache_read: 0,
        cache_covered_est: 0,
        prompt_total_est: 100,
        cache_creation_5m: 0,
        cache_creation_1h: 0,
    };
    assert_eq!(u.split_against_total(500), (500, 0, 0));
}

#[test]
fn compute_cache_usage_single_message_no_prefix() {
    let mut cache = new_cache();
    let req = MessagesRequest {
        model: "x".to_string(),
        max_tokens: 8,
        messages: vec![Message { role: "user".to_string(), content: text("Hello") }],
        stream: false,
        system: None,
        tools: None,
        tool_choice: None,
        thinking: None,
        output_config: None,
        metadata: None,
    };
    let u = plan(&mut cache, &req, 1);
    assert_eq!(u.cache_covered_est, 0);
    assert_eq!(u.split_against_total(123), (123, 0, 0));
}

#[test]
fn different_model_does_not_reuse_same_prompt_cache() {
    let mut cache = new_cache();
    let mut req = req_with_messages(vec![
        msg_with_cc("user", &"stable prompt ".repeat(420), true),
        msg_with_cc("assistant", "ok", false),
        msg_with_cc("user", "again", false),
    ]);
    req.model = "sonnet-4-5".to_string();

    let first = plan(&mut cache, &req, 1);
    assert_eq!(first.cache_read, 0);
    assert!(first.cache_covered_est > 0);
    first.commit_success(&mut cache);

    req.model = "opus-4-5".to_string();
    let second = plan(&mut cache, &req, 1);
    assert_eq!(second.cache_read, 0, "prompt cache identity must include model");
}

#[test]
fn different_tool_choice_does_not_reuse_same_prompt_cache() {
    let mut cache = new_cache();
    let mut req = req_with_messages(vec![
        msg_with_cc("user", &"stable prompt ".repeat(420), true),
        msg_with_cc("assistant", "ok", false),
        msg_with_cc("user", "again", false),
    ]);
    req.tool_choice = Some(object(vec![("type", text("auto"))]));

    let first = plan(&mut cache, &req, 1);
    assert_eq!(first.cache_read, 0);
    assert!(first.cache_covered_est > 0);
    first.commit_success(&mut cache);

    req.tool_choice = Some(object(vec![("type", text("tool")), ("name", text("search"))]));
    let second = plan(&mut cache, &req, 1);
    assert_eq!(second.cache_read, 0, "prompt cache identity must include tool_choice");
}

/// A tool whose schema gets its top-level keys in the given order.
fn build_tool_with_schema_order(insert_required_first: bool) -> Tool {
    let mut schema = SchemaMap::new();
    if insert_required_first {
        schema.insert("required".to_string(), Json::Array(vec![]));
        schema.insert("properties".to_string(), object(vec![]));
        schema.insert("type".to_string(), text("object"));
        schema.insert("description".to_string(), text(&"schema prompt ".repeat(5000)));
    } else {
        schema.insert("type".to_string(), text("object"));
        schema.insert("description".to_string(), text(&"schema prompt ".repeat(5000)));
        schema.insert("properties".to_string(), object(vec![]));
        schema.insert("required".to_string(), Json::Array(vec![]));
    }
    Tool {
        tool_type: None,
        name: "my_tool".to_string(),
        description: "desc".to_string(),
        input_schema: schema,
        max_uses: None,
        cache_control: None,
    }
}

#[test]
fn tool_signature_stable_across_insert_order() {
    let a = build_tool_with_schema_order(true);
    let b = build_tool_with_schema_order(false);
    assert_eq!(tool_signature(&a), tool_signature(&b));
}

#[test]
fn compute_cache_usage_tools_hit_regardless_of_schema_order() {
    let make_req = |insert_required_first: bool| {
        let mut tool = build_tool_with_schema_order(insert_required_first);
        tool.cache_control =
            Some(CacheControl { cache_type: "ephemeral".to_string(), ttl: None });
        MessagesRequest {
            model: "sonnet-4-5-20250929".to_string(),
            max_tokens: 32,
            messages: vec![Message { role: "user".to_string(), content: text("Hello") }],
            stream: false,
            system: None,
            tools: Some(vec![tool]),
            tool_choice: None,
            thinking: None,
            output_config: None,
            metadata: None,
        }
    };

    let mut cache = new_cache();
    let u1 = plan(&mut cache, &make_req(false), 1);
    assert!(u1.cache_covered_est > 0, "first call should cover prefix");
    assert_eq!(u1.cache_read, 0);
    u1.commit_success(&mut cache);

    let u2 = plan(&mut cache, &make_req(true), 1);
    assert_eq!(
        u2.cache_read, u1.cache_covered_est,
        "schema 顺序不应影响命中：second read 应等于 first covered"
    );
}

/// A text message, with or without a cache mark.
fn msg_with_cc(role: &str, body: &str, with_cc: bool) -> Message {
    let block = if with_cc {
        object(vec![
            ("type", text("text")),
            ("text", text(body)),
            ("cache_control", object(vec![("type", text("ephemeral"))])),
        ])
    } else {
        object(vec![("type", text("text")), ("text", text(body))])
    };
    Message { role: role.to_string(), content: Json::Array(vec![block]) }
}

fn req_with_messages(messages: Vec<Message>) -> MessagesRequest {
    MessagesRequest {
        model: "sonnet-4-5-20250929".to_string(),
        max_tokens: 32,
        messages,
        stream: false,
        system: None,
        tools: None,
        tool_choice: None,
        thinking: None,
        output_config: None,
        metadata: None,
    }
}

#[test]
fn tool_call_history_still_hits_despite_id_drift() {
    let body = "analyze the repository structure carefully ".repeat(180);
    let assistant_tool = |id: &str| Message {
        role: "assistant".to_string(),
        content: Json::Array(vec![
            object(vec![("type", text("text")), ("text", text(&body))]),
            object(vec![
                ("type", text("tool_use")),
                ("id", text(id)),
                ("name", text("bash")),
                ("input", object(vec![("cmd", text("ls"))])),
            ]),
        ]),
    };
    let user_result = |id: &str| Message {
        role: "user".to_string(),
        content: Json::Array(vec![object(vec![
            ("type", text("tool_result")),
            ("tool_use_id", text(id)),
            ("content", text(&body)),
        ])]),
    };
    let user_anchor = |t: &str| msg_with_cc("user", t, true);
    let user_text = |t: &str| msg_with_cc("user", t, false);

    let mut cache = new_cache();
    let turn1 = req_with_messages(vec![
        user_anchor(&body),
        assistant_tool("toolu_aaa"),
        user_result("toolu_aaa"),
        msg_with_cc("assistant", &body, false),
        user_text("next question one"),
    ]);
    let u1 = plan(&mut cache, &turn1, 1);
    assert!(u1.cache_covered_est > 0);
    assert_eq!(u1.cache_read, 0, "turn1 无历史可命中");
    u1.commit_success(&mut cache);

    let turn2 = req_with_messages(vec![
        user_anchor(&body),
        assistant_tool("toolu_aaa"),
        user_result("toolu_aaa"),
        msg_with_cc("assistant", &body, false),
        user_text("next question one"),
        msg_with_cc("assistant", &body, false),
        user_text("next question two"),
    ]);
    let u2 = plan(&mut cache, &turn2, 1);
    assert!(u2.cache_read > 0, "turn2 应命中 turn1 的历史前缀（即便工具块带 id）");
    assert_eq!(u2.cache_read, u1.cache_covered_est, "命中的最深前缀应等于上一轮 covered");
}

/// A conversation with a tool call, by the id of the call and the text of its result.
fn request_with_tool_result(body: &str, id: &str, result: &str) -> MessagesRequest {
    req_with_messages(vec![
        msg_with_cc("user", body, true),
        Message {
            role: "assistant".to_string(),
            content: Json::Array(vec![object(vec![
                ("type", text("tool_use")),
                ("id", text(id)),
                ("name", text("lookup")),
                ("input", object(vec![("id", Json::Number("7".to_string()))])),
            ])]),
        },
        Message {
            role: "user".to_string(),
            content: Json::Array(vec![object(vec![
                ("type", text("tool_result")),
                ("tool_use_id", text(id)),
                ("content", text(result)),
            ])]),
        },
        msg_with_cc("user", "next", false),
    ])
}

#[test]
fn tool_result_content_change_must_not_cache_hit() {
    let body = "stable prompt prefix ".repeat(260);
    let make = |result: &str| request_with_tool_result(&body, "toolu_a", result);

    let mut cache = new_cache();
    let first = plan(&mut cache, &make("order status: paid"), 1);
    assert_eq!(first.cache_read, 0);
    first.commit_success(&mut cache);

    let changed = plan(&mut cache, &make("order status: refunded"), 1);
    assert!(
        changed.cache_read < first.cache_covered_est,
        "semantic tool_result changes must not hit the prior deepest cache segment that included the old tool_result"
    );
}

#[test]
fn tool_use_id_drift_with_same_semantic_content_still_hits() {
    let body = "stable prompt prefix ".repeat(260);
    let make = |id: &str| request_with_tool_result(&body, id, "order status: paid");

    let mut cache = new_cache();
    let first = plan(&mut cache, &make("toolu_old"), 1);
    assert_eq!(first.cache_read, 0);
    first.commit_success(&mut cache);

    let drifted = plan(&mut cache, &make("toolu_new"), 1);
    assert!(
        drifted.cache_read > 0,
        "tool_use.id and tool_result.tool_use_id drift should not affect semantic cache hits"
    );
    assert_eq!(drifted.cache_read, first.cache_covered_est);
}

#[test]
fn multi_turn_prefix_chain_produces_read_hit() {
    let mut cache = new_cache();
    let body = "the quick brown fox jumps over the lazy dog ".repeat(460);

    let turn3 = req_with_messages(vec![
        msg_with_cc("user", &body, true),
        msg_with_cc("assistant", &body, false),
        msg_with_cc("user", &body, false),
        msg_with_cc("assistant", &body, false),
        msg_with_cc("user", &body, false),
    ]);
    let u3 = plan(&mut cache, &turn3, 1);
    assert!(u3.cache_covered_est > 0, "turn3 should create cache");
    assert_eq!(u3.cache_read, 0, "turn3 has no prior cache to read");
    u3.commit_success(&mut cache);

    let turn4 = req_with_messages(vec![
        msg_with_cc("user", &body, true),
        msg_with_cc("assistant", &body, false),
        msg_with_cc("user", &body, false),
        msg_with_cc("assistant", &body, false),
        msg_with_cc("user", &body, false),
        msg_with_cc("assistant", &body, false),
        msg_with_cc("user", &body, false),
    ]);
    let u4 = plan(&mut cache, &turn4, 1);
    assert!(u4.cache_read > 0, "turn4 should hit a prior-turn prefix");
    assert_eq!(u4.cache_read, u3.cache_covered_est, "read 应等于上一轮写入的最深历史前缀");
    assert!(u4.cache_covered_est > u4.cache_read, "turn4 仍会为新增的历史前缀创建缓存");
}

#[test]
fn explicit_cache_control_on_current_message_can_read_and_create() {
    let mut cache = new_cache();
    let body = "stable history prefix ".repeat(280);

    let turn1 = req_with_messages(vec![
        msg_with_cc("user", &body, true),
        msg_with_cc("assistant", &body, false),
        msg_with_cc("user", "current cacheable query one", true),
    ]);
    let u1 = plan(&mut cache, &turn1, 1);
    assert_eq!(u1.cache_read, 0);
    assert!(u1.cache_covered_est > 0);
    u1.commit_success(&mut cache);

    let turn2 = req_with_messages(vec![
        msg_with_cc("user", &body, true),
        msg_with_cc("assistant", &body, false),
        msg_with_cc("user", "current cacheable query two", true),
    ]);
    let u2 = plan(&mut cache, &turn2, 1);
    assert!(u2.cache_read > 0, "应命中 turn1 的稳定历史前缀");
    assert!(
        u2.cache_covered_est > u2.cache_read,
        "当前消息显式 cache_control 应产生新 creation 覆盖"
    );

    let (_input, creation, read) = u2.split_against_total(u2.prompt_total_est);
    assert!(read > 0, "同一次请求应有 cache_read");
    assert!(creation > 0, "同一次请求应有 cache_creation");
}

#[test]
fn no_cache_control_does_not_create_cacheable_breakpoints() {
    let mut cache = new_cache();
    let body = "lorem ipsum dolor sit amet ".repeat(220);
    let turn1 = req_with_messages(vec![
        msg_with_cc("user", &body, false),
        msg_with_cc("assistant", &body, false),
        msg_with_cc("user", &body, false),
    ]);
    let u1 = plan(&mut cache, &turn1, 1);
    assert_eq!(u1.cache_covered_est, 0, "无 cache_control 不应创建缓存段");
    assert_eq!(u1.cache_read, 0);
    u1.commit_success(&mut cache);

    let turn2 = req_with_messages(vec![
        msg_with_cc("user", &body, false),
        msg_with_cc("assistant", &body, false),
        msg_with_cc("user", &body, false),
        msg_with_cc("assistant", &body, false),
        msg_with_cc("user", &body, false),
    ]);
    let u2 = plan(&mut cache, &turn2, 1);
    assert_eq!(u2.cache_read, 0, "无 cache_control 不应跨轮命中");
    assert_eq!(u2.cache_covered_est, 0, "无 cache_control 不应上报 creation");
}

/// A request with a system prompt of two blocks, the second with a cache mark.
fn request_with_systems(first: &str, second: &str, messages: Vec<Message>) -> MessagesRequest {
    MessagesRequest {
        model: "opus-4-8".to_string(),
        max_tokens: 64,
        messages,
        stream: false,
        system: Some(vec![
            SystemMessage { text: first.to_string(), cache_control: None },
            SystemMessage {
                text: second.to_string(),
                cache_control: Some(CacheControl {
                    cache_type: "ephemeral".to_string(),
                    ttl: None,
                }),
            },
        ]),
        tools: None,
        tool_choice: None,
        thinking: None,
        output_config: None,
        metadata: None,
    }
}

#[test]
fn anthropic_billing_system_header_drift_does_not_break_cache_hit() {
    let stable_sys = "You are a coding assistant. ".repeat(200);
    let body = "implement the feature step by step ".repeat(180);

    let mut cache = new_cache();
    let u1 = plan(
        &mut cache,
        &request_with_systems(
            "x-anthropic-billing-header: cc_version=1; cch=aaaa;",
            &stable_sys,
            vec![
                msg_with_cc("user", &body, false),
                msg_with_cc("assistant", &body, false),
                msg_with_cc("user", &body, false),
            ],
        ),
        1,
    );
    assert!(u1.cache_covered_est > 0);
    assert_eq!(u1.cache_read, 0, "turn1 无历史可命中");
    u1.commit_success(&mut cache);

    let u2 = plan(
        &mut cache,
        &request_with_systems(
            "x-anthropic-billing-header: cc_version=2; cch=bbbbb; extra=1;",
            &stable_sys,
            vec![
                msg_with_cc("user", &body, false),
                msg_with_cc("assistant", &body, false),
                msg_with_cc("user", &body, false),
                msg_with_cc("assistant", &body, false),
                msg_with_cc("user", &body, false),
            ],
        ),
        1,
    );
    assert!(u2.cache_read > 0, "billing header drift should not break stable prefix hit");
}

#[test]
fn non_billing_dynamic_system_header_change_misses() {
    let stable = "stable tool and policy prompt ".repeat(240);
    let make_req = |dynamic: &str| {
        request_with_systems(
            dynamic,
            &stable,
            vec![Message {
                role: "user".to_string(),
                content: Json::Array(vec![object(vec![
                    ("type", text("text")),
                    ("text", text("hello")),
                ])]),
            }],
        )
    };

    let mut cache = new_cache();
    let first = plan(&mut cache, &make_req("now=1001"), 1);
    assert_eq!(first.cache_read, 0);
    first.commit_success(&mut cache);
    let second = plan(&mut cache, &make_req("now=2002"), 1);
    assert_eq!(second.cache_read, 0, "普通 system 动态文本变化应导致 miss");
}

#[test]
fn same_credential_reuses_cache_across_client_keys() {
    let mut cache = new_cache();
    let body = "shared system prompt and history ".repeat(180);
    let msgs = || {
        vec![
            msg_with_cc("user", &body, true),
            msg_with_cc("assistant", &body, false),
            msg_with_cc("user", &body, false),
        ]
    };
    let a = plan(&mut cache, &req_with_messages(msgs()), 1);
    assert!(a.cache_covered_est > 0);
    assert_eq!(a.cache_read, 0);
    a.commit_success(&mut cache);
    let b = plan(&mut cache, &req_with_messages(msgs()), 1);
    assert!(b.cache_read > 0, "同一 credential 应复用缓存");
}

#[test]
fn metadata_session_does_not_scope_cache() {
    let body = "conversation prefix that stays stable ".repeat(180);
    let make = |session: &str| MessagesRequest {
        model: "opus-4-8".to_string(),
        max_tokens: 64,
        messages: vec![
            msg_with_cc("user", &body, true),
            msg_with_cc("assistant", &body, false),
            msg_with_cc("user", &body, false),
        ],
        stream: false,
        system: None,
        tools: None,
        tool_choice: None,
        thinking: None,
        output_config: None,
        metadata: Some(Metadata {
            user_id: Some(format!("user_abc_account__session_{session}")),
        }),
    };
    let mut cache = new_cache();
    let s1a = plan(&mut cache, &make("aaa"), 7);
    assert_eq!(s1a.cache_read, 0);
    s1a.commit_success(&mut cache);
    let s2 = plan(&mut cache, &make("bbb"), 7);
    assert!(s2.cache_read > 0, "同一 credential 不应被不同 session 隔离");
}

#[test]
fn failed_upstream_request_does_not_commit_cache_segments() {
    let mut cache = new_cache();
    let req = req_with_messages(vec![
        msg_with_cc("user", &"cacheable prompt ".repeat(260), true),
        msg_with_cc("assistant", "ok", false),
        msg_with_cc("user", "next", false),
    ]);

    let failed_plan = plan(&mut cache, &req, 1);
    assert_eq!(failed_plan.cache_read, 0);
    assert!(failed_plan.cache_covered_est > 0);

    let retry_plan = plan(&mut cache, &req, 1);
    assert_eq!(
        retry_plan.cache_read, 0,
        "a failed upstream request must not poison simulated cache state"
    );

    retry_plan.commit_success(&mut cache);
    let later = plan(&mut cache, &req, 1);
    assert!(later.cache_read > 0, "successful commit should still enable later hits");
}

#[test]
fn token_count_excludes_signature_noise() {
    let history_text = "the quick brown fox jumps over the lazy dog ".repeat(460);
    let req = MessagesRequest {
        model: "m".to_string(),
        max_tokens: 8,
        messages: vec![msg_with_cc("user", &history_text, true)],
        stream: false,
        system: None,
        tools: None,
        tool_choice: None,
        thinking: None,
        output_config: None,
        metadata: None,
    };
    let mut cache = new_cache();
    let u = plan(&mut cache, &req, 1);
    let pure = estimate_tokens(&history_text);
    assert_eq!(
        u.cache_covered_est, pure,
        "covered 应只算原文 token，实测 {} vs 纯文本 {}",
        u.cache_covered_est, pure
    );
}

#[test]
fn image_block_contributes_tokens_and_hits() {
    let png = make_test_png(1200, 1200);
    let img_tokens = estimate_image_tokens("image/png", &png) as i32;
    assert!(img_tokens > 100, "前提：测试图应有可观 token，实测 {img_tokens}");

    let make = |trailing: &str| MessagesRequest {
        model: "m".to_string(),
        max_tokens: 8,
        messages: vec![
            Message {
                role: "user".to_string(),
                content: Json::Array(vec![
                    object(vec![
                        ("type", text("image")),
                        (
                            "source",
                            object(vec![
                                ("type", text("base64")),
                                ("media_type", text("image/png")),
                                ("data", text(&png)),
                            ]),
                        ),
                    ]),
                    object(vec![
                        ("type", text("text")),
                        ("text", text("describe")),
                        ("cache_control", object(vec![("type", text("ephemeral"))])),
                    ]),
                ]),
            },
            Message { role: "assistant".to_string(), content: text("a pixel") },
            Message { role: "user".to_string(), content: text(trailing) },
        ],
        stream: false,
        system: None,
        tools: None,
        tool_choice: None,
        thinking: None,
        output_config: None,
        metadata: None,
    };

    let mut cache = new_cache();
    let u1 = plan(&mut cache, &make("q1"), 1);
    let text_only = estimate_tokens("describe");
    assert!(
        u1.cache_covered_est >= img_tokens + text_only - 5,
        "covered({}) 应含图片 token({})",
        u1.cache_covered_est,
        img_tokens
    );
    assert_eq!(u1.cache_read, 0);
    u1.commit_success(&mut cache);

    let u2 = plan(&mut cache, &make("q2"), 1);
    assert!(
        u2.cache_read >= img_tokens,
        "含图历史应跨轮命中且 read({}) 含图片 token({})",
        u2.cache_read,
        img_tokens
    );
}

#[test]
fn below_model_minimum_tokens_are_not_cacheable() {
    let mut cache = new_cache();
    let req = req_with_messages(vec![msg_with_cc("user", "tiny", true)]);

    let usage = plan(&mut cache, &req, 1);

    assert_eq!(
        usage.cache_covered_est, 0,
        "Anthropic prompt cache should ignore breakpoints below the model minimum token threshold"
    );
    assert_eq!(usage.cache_read, 0);
}

#[test]
fn haiku_models_use_anthropic_2048_prompt_cache_minimum() {
    assert_eq!(minimum_cacheable_tokens_for_model("3-haiku-20240307"), 2048);
    assert_eq!(minimum_cacheable_tokens_for_model("3-5-haiku-20241022"), 2048);
}

#[test]
fn lookup_only_considers_last_ten_cacheable_breakpoints() {
    let mut cache = new_cache();
    let mut messages = Vec::new();
    for idx in 0..12 {
        messages.push(msg_with_cc(
            "user",
            &format!("stable prefix block {idx} {}", "cache token ".repeat(220)),
            true,
        ));
    }
    let full = req_with_messages(messages);
    let full_usage = plan(&mut cache, &full, 1);
    assert!(full_usage.cache_covered_est > 0);

    let segments = extract_segments(&full, 1, &counts_for(&full)).0;
    let first_hash = segments[0].hash;
    let first_tokens = segments[0].cumulative_tokens;
    cache.record(&[first_hash], &[first_tokens], 300);

    let retry = plan(&mut cache, &full, 1);

    assert_eq!(
        retry.cache_read, 0,
        "cache lookup should ignore matches older than the last 10 cacheable breakpoints"
    );
}

#[test]
fn mixed_ttl_breakpoints_expire_independently() {
    let mut cache = new_cache();
    let req = req_with_messages(vec![
        msg_with_ttl("user", &"one hour prefix ".repeat(260), "1h"),
        msg_with_ttl("assistant", &"five minute suffix ".repeat(260), "5m"),
    ]);
    let counts = counts_for(&req);
    let now = now_secs();

    let first = compute_cache_usage_at(&mut cache, &req, 1, &counts, now);
    assert_eq!(first.cache_read, 0);
    assert_eq!(
        first.cache_creation_1h, 0,
        "reference attributes creation to the last cacheable breakpoint TTL"
    );
    assert!(first.cache_creation_5m > 0, "last breakpoint should be 5m cache creation");
    first.commit_success_at(&mut cache, now);

    let segments = extract_segments(&req, 1, &counts).0;
    assert_eq!(segments.len(), 2, "test setup should create two explicit breakpoints");
    assert!(cache.entry(segments[1].hash).is_some(), "5m segment should have been recorded");

    // Five minutes later only the second prefix has expired.
    let second = compute_cache_usage_at(&mut cache, &req, 1, &counts, now + 300);

    assert_eq!(
        second.cache_read, segments[0].cumulative_tokens as i32,
        "after the 5m suffix expires, the older 1h prefix should still be readable"
    );
    assert_eq!(
        second.cache_creation_5m,
        segments[1].cumulative_tokens.saturating_sub(segments[0].cumulative_tokens) as i32,
        "only the expired 5m suffix should be recreated"
    );
    assert_eq!(
        second.cache_creation_1h, 0,
        "the still-valid 1h prefix should not be recreated"
    );
}

fn msg_with_ttl(role: &str, body: &str, ttl: &str) -> Message {
    Message {
        role: role.to_string(),
        content: Json::Array(vec![object(vec![
            ("type", text("text")),
            ("text", text(body)),
            (
                "cache_control",
                object(vec![("type", text("ephemeral")), ("ttl", text(ttl))]),
            ),
        ])]),
    }
}

fn make_test_png(w: u32, h: u32) -> String {
    let mut img = RgbImage::new(w, h);
    for y in 0..h {
        for x in 0..w {
            img.put_pixel(x, y, Rgb([(x % 256) as u8, (y % 256) as u8, 128]));
        }
    }
    let mut buf = Vec::new();
    img.write_to(&mut Cursor::new(&mut buf), ImageFormat::Png).unwrap();
    B64.encode(&buf)
}
