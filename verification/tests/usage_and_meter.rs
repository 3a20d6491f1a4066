use prompt_relay::json::{Json, JsonField};
use prompt_relay::meter::{now_secs, time_of, CacheEntry, CacheMeter, DEFAULT_CAPACITY};
use prompt_relay::prompt::{
    block_cache_ttl, block_content_token_text, block_has_cache_control, block_signature_value,
    block_token_text, canonical_json_without_cache_control, image_signature_value,
    image_source_parts, parse_ttl, strip_cache_control_value, system_signature, tool_signature,
    tool_token_text, TokenSource,
};
use prompt_relay::json_text::compact_json;
use prompt_relay::request::{
    CacheControl, Message, MessagesRequest, SchemaMap, SystemMessage, Tool,
};
use prompt_relay::segments::{
    extract_segments, fingerprint_of, leading_u64, token_sources, tokens_from_estimate,
};
use prompt_relay::usage::{
    compute_cache_usage_at, minimum_cacheable_tokens_for_model, minimum_tokens_for_lowercase,
    CacheUsage, CacheUsagePlan,
};
use sha2::{Digest, Sha256};
use std::collections::HashMap;
use std::time::{SystemTime, UNIX_EPOCH};

const NOW: i64 = 1_000_000;

fn text(s: &str) -> Json {
    Json::Text(s.to_string())
}

fn object(fields: Vec<(&str, Json)>) -> Json {
    Json::Object(
        fields
            .into_iter()
            .map(|(key, value)| JsonField { key: key.to_string(), value })
            .collect(),
    )
}

fn mark(ttl: Option<&str>) -> CacheControl {
    CacheControl { cache_type: "ephemeral".to_string(), ttl: ttl.map(|s| s.to_string()) }
}

fn mark_value() -> Json {
    object(vec![("type", text("ephemeral"))])
}

fn marked_text(body: &str) -> Json {
    object(vec![("type", text("text")), ("text", text(body)), ("cache_control", mark_value())])
}

fn user(content: Json) -> Message {
    Message { role: "user".to_string(), content }
}

fn request(messages: Vec<Message>) -> MessagesRequest {
    MessagesRequest {
        model: "m".to_string(),
        max_tokens: 8,
        messages,
        stream: false,
        system: None,
        tools: None,
        tool_choice: None,
        thinking: None,
        output_config: None,
        metadata: None,
    }
}

// ---------------------------------------------------------------------------
// Splitting a total
// ---------------------------------------------------------------------------

/// The split in floating point.
fn float_split(u: &CacheUsage, total_real: i32) -> (i32, i32, i32, i32, i32) {
    let total = total_real.max(0);
    if u.cache_covered_est <= 0 || u.prompt_total_est <= 0 {
        return (total, 0, 0, 0, 0);
    }
    let ratio = (u.cache_covered_est as f64 / u.prompt_total_est as f64).clamp(0.0, 1.0);
    let cached = (((total as f64) * ratio).round() as i32).min(total);
    let read = (((cached as f64) * (u.cache_read as f64 / u.cache_covered_est as f64)).round()
        as i32)
        .clamp(0, cached);
    let creation = cached - read;
    let creation_est = u.cache_covered_est.saturating_sub(u.cache_read);
    if creation <= 0 || creation_est <= 0 {
        return (total - cached, creation, read, 0, 0);
    }
    let whole = u.cache_creation_5m.saturating_add(u.cache_creation_1h).max(creation_est);
    let one_hour = (((creation as f64) * (u.cache_creation_1h as f64 / whole as f64)).round()
        as i32)
        .clamp(0, creation);
    (total - cached, creation, read, creation - one_hour, one_hour)
}

fn step(state: &mut u64) -> u64 {
    *state ^= *state << 13;
    *state ^= *state >> 7;
    *state ^= *state << 17;
    *state
}

#[test]
fn splits_are_those_of_floating_point() {
    let mut state: u64 = 0x853c_49e6_748f_ea9b;
    for round in 0..200_000u32 {
        let shift = round % 32;
        let mut any = || (step(&mut state) as u32 as i32) >> shift;
        let mut u = CacheUsage {
            cache_read: any(),
            cache_covered_est: any(),
            prompt_total_est: any(),
            cache_creation_5m: any(),
            cache_creation_1h: any(),
        };
        let total = any();
        if round % 2 == 0 {
            u.cache_covered_est &= i32::MAX;
            u.prompt_total_est &= i32::MAX;
        }
        let expected = float_split(&u, total);
        let got = u.split_with_ttl_breakdown(total);
        assert_eq!(got, expected, "{u:?} {total}");
        assert_eq!(u.split_against_total(total), (expected.0, expected.1, expected.2));
        assert_eq!(got.0 + got.1 + got.2, total.max(0));
        assert_eq!(got.3 + got.4, got.1);
    }
}

#[test]
fn creation_is_split_by_time_to_live() {
    let u = CacheUsage {
        cache_read: 0,
        cache_covered_est: 100,
        prompt_total_est: 200,
        cache_creation_5m: 75,
        cache_creation_1h: 25,
    };
    assert_eq!(u.split_with_ttl_breakdown(1000), (500, 500, 0, 375, 125));
    assert_eq!(u.split_with_ttl_breakdown(-5), (0, 0, 0, 0, 0));
    assert_eq!(CacheUsage::default().split_with_ttl_breakdown(7), (7, 0, 0, 0, 0));
    let plan = CacheUsagePlan {
        cache_read: 0,
        cache_covered_est: 100,
        prompt_total_est: 200,
        cache_creation_5m: 75,
        cache_creation_1h: 25,
        commit: None,
    };
    assert_eq!(plan.split_with_ttl_breakdown(1000), (500, 500, 0, 375, 125));
    assert_eq!(plan.usage().split_against_total(1000), plan.split_against_total(1000));
}

// ---------------------------------------------------------------------------
// Models
// ---------------------------------------------------------------------------

#[test]
fn minimum_depends_on_the_model_whatever_its_case() {
    assert_eq!(minimum_cacheable_tokens_for_model("OPUS-4"), 4096);
    assert_eq!(minimum_cacheable_tokens_for_model("x-Haiku"), 2048);
    assert_eq!(minimum_cacheable_tokens_for_model("sonnet"), 1024);
    assert_eq!(minimum_cacheable_tokens_for_model(""), 1024);
    assert_eq!(minimum_cacheable_tokens_for_model("haiku-opus"), 4096);
    // Only the lower-case form is looked at.
    assert_eq!(minimum_tokens_for_lowercase("OPUS"), 1024);
    assert_eq!(minimum_tokens_for_lowercase("opus"), 4096);
}

#[test]
fn ttl_is_read_whatever_its_case() {
    assert_eq!(parse_ttl(Some("1H")), 3600);
    assert_eq!(parse_ttl(Some("5M")), 300);
    assert_eq!(parse_ttl(Some("")), 300);
}

#[test]
fn negative_estimates_count_as_nothing() {
    assert_eq!(tokens_from_estimate(-1), 0);
    assert_eq!(tokens_from_estimate(0), 0);
    assert_eq!(tokens_from_estimate(i32::MAX), i32::MAX as u32);
}

// ---------------------------------------------------------------------------
// The store
// ---------------------------------------------------------------------------

#[test]
fn the_clock_is_that_of_the_system() {
    let seconds = || SystemTime::now().duration_since(UNIX_EPOCH).unwrap().as_secs() as i64;
    let before = seconds();
    let now = now_secs();
    assert!(before <= now && now <= seconds());
    assert_eq!(time_of(Some(17)), 17);
    assert_eq!(time_of(None), 0);
}

#[test]
fn times_to_live_are_kept_within_bounds() {
    let mut cache = CacheMeter::new_at(None, NOW);
    cache.record_with_ttls_at(&[1, 2, 3], &[1, 1, 1], &[0, 120, 9_999], NOW);
    assert_eq!(cache.entry(1).unwrap().expires_at, NOW + 60);
    assert_eq!(cache.entry(2).unwrap().expires_at, NOW + 120);
    assert_eq!(cache.entry(3).unwrap().expires_at, NOW + 3600);
    assert!(cache.entry(4).is_none());
}

#[test]
fn a_live_entry_keeps_its_expiry_and_the_larger_count() {
    let mut cache = CacheMeter::new_at(None, NOW);
    cache.record_at(&[1], &[10], 300, NOW);
    cache.record_at(&[1], &[5], 3600, NOW + 10);
    let entry = cache.entry(1).unwrap();
    assert_eq!((entry.tokens, entry.expires_at, entry.last_hit_at), (10, NOW + 300, NOW + 10));
    cache.record_at(&[1], &[20], 3600, NOW + 20);
    assert_eq!(cache.entry(1).unwrap().tokens, 20);

    // An expired one is made anew.
    cache.record_at(&[1], &[7], 3600, NOW + 300);
    let entry = cache.entry(1).unwrap();
    assert_eq!((entry.tokens, entry.expires_at), (7, NOW + 3900));
}

#[test]
fn lookups_mark_what_they_hit() {
    let mut cache = CacheMeter::new_at(None, NOW);
    cache.record_at(&[1], &[10], 300, NOW);
    let found = cache.lookup_at(&[1, 2], &[11, 12], NOW + 5);
    assert_eq!((found[0].hit, found[0].tokens), (true, 11));
    assert_eq!((found[1].hit, found[1].tokens), (false, 12));
    let entry = cache.entry(1).unwrap();
    assert_eq!((entry.tokens, entry.expires_at, entry.last_hit_at), (10, NOW + 300, NOW + 5));
    assert_eq!(cache.len(), 1);

    // One that has expired is neither hit nor marked, nor removed.
    assert!(!cache.lookup_at(&[1], &[10], NOW + 300)[0].hit);
    assert_eq!(cache.entry(1).unwrap().last_hit_at, NOW + 5);
    assert_eq!(cache.len(), 1);
}

#[test]
fn the_least_recently_used_entries_go_first() {
    let mut cache = CacheMeter::new_at(None, NOW);
    // The later the key, the earlier it was used.
    for i in 0..DEFAULT_CAPACITY as u64 {
        cache.record_at(&[i], &[1], 3600, NOW + DEFAULT_CAPACITY as i64 - i as i64 - 3000);
    }
    assert_eq!(cache.len(), DEFAULT_CAPACITY);
    let last = DEFAULT_CAPACITY as u64 - 1;
    let late = NOW + DEFAULT_CAPACITY as i64;
    cache.record_at(&[10_000, 10_001], &[1, 1], 3600, late);
    assert_eq!(cache.len(), DEFAULT_CAPACITY);
    assert!(cache.entry(last).is_none());
    assert!(cache.entry(last - 1).is_none());
    assert!(cache.entry(last - 2).is_some());
    assert!(cache.entry(0).is_some());
    assert!(cache.entry(10_000).is_some());
    assert!(cache.entry(10_001).is_some());
}

#[test]
fn a_store_starts_with_what_has_not_expired() {
    let mut loaded = HashMap::new();
    loaded.insert(1u64, CacheEntry { tokens: 3, expires_at: NOW + 1, last_hit_at: NOW - 9 });
    loaded.insert(2u64, CacheEntry { tokens: 4, expires_at: NOW, last_hit_at: NOW - 9 });
    let mut cache = CacheMeter::new_at(Some(loaded), NOW);
    assert_eq!(cache.len(), 1);
    let entry = cache.entry(1).unwrap();
    assert_eq!((entry.tokens, entry.expires_at, entry.last_hit_at), (3, NOW + 1, NOW - 9));
    assert!(cache.entry(2).is_none());
    assert!(cache.take_snapshot().is_none());
}

#[test]
fn a_snapshot_is_taken_only_after_a_change() {
    let mut cache = CacheMeter::new_at(None, NOW);
    assert!(cache.take_snapshot().is_none());
    cache.record_at(&[1], &[1], 300, NOW);
    assert_eq!(cache.take_snapshot().unwrap().len(), 1);
    assert!(cache.take_snapshot().is_none());

    // A lookup is no change to be written, an eviction is one.
    cache.lookup_at(&[1], &[1], NOW);
    cache.evict_expired_at(NOW);
    assert!(cache.take_snapshot().is_none());
    cache.evict_expired_at(NOW + 300);
    assert!(cache.take_snapshot().unwrap().is_empty());
}

// ---------------------------------------------------------------------------
// Signatures
// ---------------------------------------------------------------------------

#[test]
fn signatures_are_written_as_expected() {
    let mut schema = SchemaMap::new();
    schema.insert("b".to_string(), Json::Null);
    schema.insert("a".to_string(), Json::Bool(true));
    schema.insert("b".to_string(), Json::Bool(false));
    assert_eq!(compact_json(&schema.to_json()), r#"{"a":true,"b":false}"#);
    let tool = Tool {
        tool_type: None,
        name: "n".to_string(),
        description: "d".to_string(),
        input_schema: schema,
        max_uses: None,
        cache_control: None,
    };
    assert_eq!(tool_signature(&tool), r#"tool:n|d|{"a":true,"b":false}"#);
    assert_eq!(tool_token_text(&tool), r#"n d {"a":true,"b":false}"#);

    let system = |s: &str| SystemMessage { text: s.to_string(), cache_control: None };
    assert_eq!(system_signature(&system("hello")), "sys:hello");
    assert_eq!(
        system_signature(&system("x-anthropic-billing-header: 1")),
        "sys:__anthropic_billing_header__"
    );
}

#[test]
fn block_signatures_leave_out_what_drifts() {
    assert_eq!(block_signature_value(&marked_text("hi")), "block:text|hi");
    assert_eq!(block_token_text(&marked_text("hi")), "hi");

    let thinking = object(vec![("type", text("thinking")), ("thinking", text("t"))]);
    assert_eq!(block_signature_value(&thinking), "block:thinking|t");
    assert_eq!(block_token_text(&thinking), "t");

    let redacted = object(vec![("type", text("redacted_thinking")), ("data", text("d"))]);
    assert_eq!(block_signature_value(&redacted), "block:redacted_thinking|d");
    assert_eq!(block_token_text(&redacted), "d");

    let tool_use = object(vec![
        ("type", text("tool_use")),
        ("id", text("drifts")),
        ("name", text("ls")),
        ("input", object(vec![("b", Json::Null), ("a", text("x"))])),
    ]);
    assert_eq!(block_signature_value(&tool_use), r#"block:tool_use|ls|{"a":"x","b":null}"#);
    assert_eq!(block_token_text(&tool_use), r#"ls {"a":"x","b":null}"#);
    let nameless = object(vec![("type", text("tool_use")), ("input", Json::Array(vec![]))]);
    assert_eq!(block_signature_value(&nameless), "block:tool_use||[]");
    assert_eq!(block_token_text(&nameless), "[]");

    let image = || {
        object(vec![
            ("type", text("image")),
            ("source", object(vec![("media_type", text("image/png")), ("data", text("AAAA"))])),
        ])
    };
    let result = object(vec![
        ("type", text("tool_result")),
        ("tool_use_id", text("drifts")),
        ("is_error", Json::Bool(true)),
        ("content", text("out")),
    ]);
    assert_eq!(block_signature_value(&result), r#"block:tool_result|true|"out""#);
    assert_eq!(block_token_text(&result), "out");
    let parts = Json::Array(vec![marked_text("a"), image(), marked_text(""), marked_text("b")]);
    assert_eq!(block_content_token_text(&parts), "a b");

    assert_eq!(image_source_parts(&image()), ("image/png", "AAAA"));
    assert_eq!(image_signature_value(&image()), "block:image|image/png|AAAA");
    assert_eq!(block_token_text(&image()), "");
    let linked = object(vec![("type", text("image")), ("source", object(vec![]))]);
    assert_eq!(block_signature_value(&linked), r#"block:image||{"source":{},"type":"image"}"#);

    let other = object(vec![("type", text("zz")), ("k", marked_text("v"))]);
    assert_eq!(
        block_signature_value(&other),
        r#"block:zz|{"k":{"text":"v","type":"text"},"type":"zz"}"#
    );
    assert_eq!(block_signature_value(&Json::Null), "block:|null");
}

#[test]
fn marks_are_found_and_removed() {
    assert!(block_has_cache_control(&marked_text("x")));
    assert!(!block_has_cache_control(&text("x")));
    let hour = object(vec![(
        "cache_control",
        object(vec![("type", text("ephemeral")), ("ttl", text("1h"))]),
    )]);
    assert_eq!(block_cache_ttl(&hour), 3600);
    assert_eq!(block_cache_ttl(&marked_text("x")), 300);
    let nested = Json::Array(vec![object(vec![
        ("cache_control", Json::Null),
        ("k", Json::Array(vec![marked_text("x")])),
    ])]);
    assert_eq!(
        compact_json(&strip_cache_control_value(&nested)),
        r#"[{"k":[{"type":"text","text":"x"}]}]"#
    );
    assert_eq!(
        canonical_json_without_cache_control(&nested),
        r#"[{"k":[{"text":"x","type":"text"}]}]"#
    );
}

// ---------------------------------------------------------------------------
// Prefixes
// ---------------------------------------------------------------------------

fn leading_digest(prefix: &str) -> u64 {
    let digest = Sha256::digest(prefix.as_bytes());
    let mut first = [0u8; 8];
    first.copy_from_slice(&digest[..8]);
    u64::from_be_bytes(first)
}

#[test]
fn fingerprints_are_the_first_bytes_of_the_digest() {
    for prefix in ["", "abc", "é漢🎉"] {
        assert_eq!(fingerprint_of(prefix), leading_digest(prefix));
    }
    // The digest of "abc" begins with these bytes.
    assert_eq!(fingerprint_of("abc"), 0xba78_16bf_8f01_cfea);
    assert_eq!(leading_u64(&vec![1, 2, 3, 4, 5, 6, 7, 8, 9]), 0x0102_0304_0506_0708);
}

#[test]
fn prefixes_are_read_as_one_growing_text() {
    let req = request(vec![user(Json::Array(vec![marked_text("hi")])), user(text("bye"))]);
    let (segments, total, enabled) = extract_segments(&req, 7, &vec![100, 20]);
    assert!(enabled);
    assert_eq!(total, 120);
    let start = r#"credential:7{"model":"m","tool_choice":null}userblock:text|hi"#;
    assert_eq!(segments.len(), 2);
    assert_eq!(segments[0].hash, leading_digest(start));
    assert_eq!(segments[0].cumulative_tokens, 100);
    assert_eq!(segments[0].ttl_secs, 300);
    assert_eq!(segments[1].hash, leading_digest(&format!("{start}userbye")));
    assert_eq!(segments[1].cumulative_tokens, 120);
    assert_eq!(segments[1].ttl_secs, 300);
}

#[test]
fn tools_come_before_the_system_prompt_and_the_messages() {
    let mut req = request(vec![user(text("hi"))]);
    req.tools = Some(vec![Tool {
        tool_type: None,
        name: "n".to_string(),
        description: "d".to_string(),
        input_schema: SchemaMap::new(),
        max_uses: None,
        cache_control: Some(mark(Some("1h"))),
    }]);
    req.system = Some(vec![SystemMessage { text: "s".to_string(), cache_control: Some(mark(None)) }]);
    let sources: Vec<String> = token_sources(&req)
        .into_iter()
        .map(|source| match source {
            TokenSource::Text(t) => t,
            TokenSource::Image { .. } => "image".to_string(),
        })
        .collect();
    assert_eq!(sources, vec!["n d {}", "s", "hi"]);
    let (segments, total, _) = extract_segments(&req, 1, &vec![1, 2, 4]);
    assert_eq!(total, 7);
    let shape: Vec<(u32, i64)> =
        segments.iter().map(|s| (s.cumulative_tokens, s.ttl_secs)).collect();
    assert_eq!(shape, vec![(1, 3600), (3, 300), (7, 300)]);
}

#[test]
fn images_count_by_their_own_tokens() {
    let image = object(vec![
        ("type", text("image")),
        ("source", object(vec![("media_type", text("image/png")), ("data", text("AAAA"))])),
    ]);
    let req = request(vec![user(Json::Array(vec![image]))]);
    match &token_sources(&req)[..] {
        [TokenSource::Image { media_type, data }] => {
            assert_eq!(media_type, "image/png");
            assert_eq!(data, "AAAA");
        }
        _ => panic!("expected one image"),
    }
    assert_eq!(extract_segments(&req, 1, &vec![1920]).1, 1920);
}

#[test]
fn without_an_account_nothing_is_cached() {
    let req = request(vec![user(Json::Array(vec![marked_text("hi")]))]);
    let (segments, total, enabled) = extract_segments(&req, 0, &vec![5000]);
    assert!(segments.is_empty());
    assert_eq!(total, 5000);
    assert!(!enabled);
    let mut cache = CacheMeter::new_at(None, NOW);
    let plan = compute_cache_usage_at(&mut cache, &req, 0, &vec![5000], NOW);
    assert_eq!((plan.cache_covered_est, plan.prompt_total_est), (0, 5000));
    assert!(plan.commit.is_none());
    plan.commit_success_at(&mut cache, NOW);
    assert_eq!(cache.len(), 0);
}

#[test]
fn accounts_do_not_share_prefixes() {
    let req = request(vec![user(Json::Array(vec![marked_text("hi")]))]);
    let mut cache = CacheMeter::new_at(None, NOW);
    compute_cache_usage_at(&mut cache, &req, 1, &vec![5000], NOW).commit_success_at(&mut cache, NOW);
    assert_eq!(compute_cache_usage_at(&mut cache, &req, 1, &vec![5000], NOW).cache_read, 5000);
    assert_eq!(compute_cache_usage_at(&mut cache, &req, 2, &vec![5000], NOW).cache_read, 0);
}

#[test]
fn totals_saturate() {
    let req = request(vec![user(text("a")), user(text("b"))]);
    assert_eq!(extract_segments(&req, 1, &vec![u32::MAX, 2]).1, u32::MAX);
}

#[test]
fn a_repeated_breakpoint_keeps_the_longer_time_to_live() {
    let block = |ttl: &str| {
        object(vec![
            ("type", text("text")),
            ("text", text("hi")),
            ("cache_control", object(vec![("type", text("ephemeral")), ("ttl", text(ttl))])),
        ])
    };
    // The block and the end of the message are one prefix.
    let req = request(vec![user(Json::Array(vec![block("1h")]))]);
    let (segments, _, _) = extract_segments(&req, 1, &vec![10]);
    assert_eq!(segments.len(), 1);
    assert_eq!(segments[0].ttl_secs, 3600);
}

#[test]
fn an_hour_of_life_counts_as_one_hour_creation() {
    let block = object(vec![
        ("type", text("text")),
        ("text", text("hi")),
        ("cache_control", object(vec![("type", text("ephemeral")), ("ttl", text("1h"))])),
    ]);
    let req = request(vec![user(Json::Array(vec![block]))]);
    let mut cache = CacheMeter::new_at(None, NOW);
    let plan = compute_cache_usage_at(&mut cache, &req, 1, &vec![2000], NOW);
    assert_eq!((plan.cache_creation_5m, plan.cache_creation_1h), (0, 2000));
    plan.commit_success_at(&mut cache, NOW);

    // It is read up to the hour, and not afterwards.
    let read = |cache: &mut CacheMeter, now: i64| {
        compute_cache_usage_at(cache, &req, 1, &vec![2000], now).cache_read
    };
    assert_eq!(read(&mut cache, NOW + 3599), 2000);
    assert_eq!(read(&mut cache, NOW + 3600), 0);
}

// ---------------------------------------------------------------------------
// Over several requests
// ---------------------------------------------------------------------------

#[test]
fn accounts_differ_only_in_fingerprints() {
    let req = request(vec![user(Json::Array(vec![marked_text("hi")])), user(text("bye"))]);
    let counts = vec![3000, 20];
    let (a, total_a, _) = extract_segments(&req, 7, &counts);
    let (b, total_b, _) = extract_segments(&req, 8, &counts);
    assert_eq!(total_a, total_b);
    assert_eq!(a.len(), b.len());
    for (x, y) in a.iter().zip(b.iter()) {
        assert_eq!((x.cumulative_tokens, x.ttl_secs), (y.cumulative_tokens, y.ttl_secs));
        assert_ne!(x.hash, y.hash);
        assert!(x.ttl_secs == 300 || x.ttl_secs == 3600);
    }
    assert_eq!(extract_segments(&req, 0, &counts).1, total_a);
}

#[test]
fn appended_messages_keep_the_chain() {
    let first = || vec![user(Json::Array(vec![marked_text("hi")])), user(text("bye"))];
    let mut more = first();
    more.push(user(text("again")));
    let (a, total_a, _) = extract_segments(&request(first()), 7, &vec![3000, 20]);
    let (b, total_b, _) = extract_segments(&request(more), 7, &vec![3000, 20, 5]);
    assert!(total_a <= total_b);
    assert_eq!(b.len(), a.len() + 1);
    for (x, y) in a.iter().zip(b.iter()) {
        assert_eq!(
            (x.hash, x.cumulative_tokens, x.ttl_secs),
            (y.hash, y.cumulative_tokens, y.ttl_secs)
        );
    }
}

#[test]
fn the_next_turn_reads_exactly_what_was_covered() {
    let first = || vec![user(Json::Array(vec![marked_text("hi")])), user(text("bye"))];
    let mut more = first();
    more.push(user(text("again")));
    let mut cache = CacheMeter::new_at(None, NOW);
    let one = compute_cache_usage_at(&mut cache, &request(first()), 7, &vec![3000, 20], NOW);
    one.commit_success_at(&mut cache, NOW);
    let two = compute_cache_usage_at(&mut cache, &request(more), 7, &vec![3000, 20, 5], NOW + 9);
    assert_eq!((one.cache_covered_est, two.cache_read, two.cache_covered_est), (3020, 3020, 3025));
}

#[test]
fn recording_by_the_clock_always_records() {
    let mut cache = CacheMeter::new(None);
    cache.record_with_ttls(&[5, 6], &[1, 2], &[300, 3600]);
    assert_eq!(cache.len(), 2);
    assert!(cache.take_snapshot().is_some());
    let req = request(vec![user(Json::Array(vec![marked_text("hi")]))]);
    let plan = compute_cache_usage_at(&mut cache, &req, 7, &vec![5000], NOW);
    plan.commit_success(&mut cache);
    assert_eq!(cache.len(), 3);
    assert!(cache.take_snapshot().is_some());
}

#[test]
fn a_share_next_to_a_half_may_be_tipped() {
    // The exact share is just below 1073741823.5, and binary64 arithmetic takes it for that.
    let u = CacheUsage {
        cache_read: 0,
        cache_covered_est: 1_073_741_824,
        prompt_total_est: 2_147_483_647,
        cache_creation_5m: 0,
        cache_creation_1h: 0,
    };
    assert_eq!(u.split_against_total(2_147_483_646).1, 1_073_741_824);
    // Smaller numbers are rounded to the nearest.
    let u = CacheUsage { cache_covered_est: 1, prompt_total_est: 3, ..u };
    assert_eq!(u.split_against_total(100), (67, 33, 0));
}

#[test]
fn images_and_texts_count() {
    let image = |media_type: &str, data: &str| {
        object(vec![
            ("type", text("image")),
            (
                "source",
                object(vec![("media_type", text(media_type)), ("data", text(data))]),
            ),
        ])
    };
    let of = |block: &Json| block_signature_value(block);
    assert_ne!(of(&image("image/png", "AAAA")), of(&image("image/png", "AAAB")));
    assert_ne!(of(&image("image/png", "AAAA")), of(&image("image/gif", "AAAA")));
    assert_eq!(of(&image("image/png", "AAAA")), of(&image("image/png", "AAAA")));
    let linked = |url: &str| {
        object(vec![("type", text("image")), ("source", object(vec![("url", text(url))]))])
    };
    assert_ne!(of(&linked("a")), of(&linked("b")));
    assert_ne!(of(&marked_text("a")), of(&marked_text("b")));
}

#[test]
fn message_ends_inherit_the_time_to_live_of_the_last_mark() {
    let hour = object(vec![
        ("type", text("text")),
        ("text", text("later")),
        ("cache_control", object(vec![("type", text("ephemeral")), ("ttl", text("1h"))])),
    ]);
    let req = request(vec![
        user(text("before")),
        user(Json::Array(vec![marked_text("first")])),
        user(text("plain")),
        user(Json::Array(vec![hour, object(vec![("type", text("text")), ("text", text("x"))])])),
        user(text("end")),
    ]);
    let (segments, total, _) = extract_segments(&req, 7, &vec![1, 2, 4, 8, 16, 32]);
    let shape: Vec<(u32, i64)> =
        segments.iter().map(|s| (s.cumulative_tokens, s.ttl_secs)).collect();
    assert_eq!(shape, vec![(3, 300), (7, 300), (15, 3600), (31, 3600), (63, 3600)]);
    assert_eq!(total, 63);
}
