use prompt_relay::binary64::{scale_round, scale_trunc};
use prompt_relay::json::{Json, JsonField};
use prompt_relay::json_text::{canonical_json, compact_json};
use prompt_relay::text::{
    byte_len, contains, decimal_text, eq_ignore_ascii_case, find_lines, is_blank, is_white_space,
    join_texts, not_after, same_text, starts_with, text_of, to_chars, trimmed_end, width_of,
};
use serde_json::Value;

fn value_to_json(value: &Value) -> Json {
    match value {
        Value::Null => Json::Null,
        Value::Bool(b) => Json::Bool(*b),
        Value::Number(n) => Json::Number(n.to_string()),
        Value::String(s) => Json::Text(s.clone()),
        Value::Array(items) => Json::Array(items.iter().map(value_to_json).collect()),
        Value::Object(fields) => Json::Object(
            fields
                .iter()
                .map(|(key, value)| JsonField { key: key.clone(), value: value_to_json(value) })
                .collect(),
        ),
    }
}

const TEXTS: [&str; 16] = [
    "",
    "a",
    "\n",
    "\r\n",
    "\r",
    "a\nb",
    "a\r\nb\r\n",
    "a\r\r\nb",
    "\n\n",
    "a\n\n\nb\n",
    "é漢🎉",
    "  x  ",
    "\u{3000}\u{a0}\u{2028}",
    "tab\tend \t",
    "a\u{b}b\u{c}c\u{85}",
    "\"quoted\\\" \u{1} \u{1f} \u{7f} / \u{2029}",
];

#[test]
fn white_space_is_that_of_the_standard_library() {
    for code in 0..=0x10ffff_u32 {
        if let Some(c) = char::from_u32(code) {
            assert_eq!(is_white_space(c), c.is_whitespace(), "{code:x}");
            assert_eq!(width_of(c), c.len_utf8(), "{code:x}");
        }
    }
}

#[test]
fn lines_are_those_of_the_standard_library() {
    for s in TEXTS {
        let chars = to_chars(s);
        let lines: Vec<String> =
            find_lines(&chars).iter().map(|range| text_of(&chars, range.0, range.1)).collect();
        let expected: Vec<&str> = s.lines().collect();
        assert_eq!(lines, expected, "{s:?}");
    }
}

#[test]
fn text_functions_are_those_of_the_standard_library() {
    for s in TEXTS {
        let chars = to_chars(s);
        assert_eq!(chars, s.chars().collect::<Vec<char>>());
        assert_eq!(byte_len(s), s.len());
        assert_eq!(text_of(&chars, 0, chars.len()), s);
        assert_eq!(text_of(&chars, 0, trimmed_end(&chars, 0, chars.len())), s.trim_end());
        assert_eq!(is_blank(&chars), s.trim().is_empty());
        for t in TEXTS {
            assert_eq!(same_text(s, t), s == t);
            assert_eq!(starts_with(s, t), s.starts_with(t));
            assert_eq!(contains(s, t), s.contains(t));
            assert_eq!(not_after(s, t), s <= t);
            assert_eq!(eq_ignore_ascii_case(s, t), s.eq_ignore_ascii_case(t));
        }
    }
    assert!(eq_ignore_ascii_case("1H", "1h"));
    assert!(!eq_ignore_ascii_case("É", "é"));
    assert!(!eq_ignore_ascii_case("@", "`"));
}

#[test]
fn decimal_text_is_that_of_the_standard_library() {
    for n in [0u64, 1, 9, 10, 11, 99, 100, 12_345, u64::MAX - 1, u64::MAX] {
        assert_eq!(decimal_text(n), n.to_string());
    }
}

#[test]
fn joined_texts_are_those_of_the_standard_library() {
    let parts = vec!["a".to_string(), String::new(), "é".to_string()];
    assert_eq!(join_texts(&parts, ", "), parts.join(", "));
    assert_eq!(join_texts(&vec![], ", "), "");
}

const VALUES: [&str; 8] = [
    "null",
    "[true, false, 0, -1, 1.5, 1e300]",
    r#""\u0000\u0001\b\t\n\f\r\u001f\"\\/é漢🎉 ""#,
    "{}",
    "[]",
    r#"{"b": 1, "a": [{"d": null, "c": "x"}], "": {}}"#,
    r#"{"é": 1, "z": 2, "A": 3, "\"": 4}"#,
    r#"[[[[]]], {"a": {"a": {"a": {}}}}]"#,
];

#[test]
fn compact_text_is_that_of_serde_json() {
    for source in VALUES {
        let value: Value = serde_json::from_str(source).unwrap();
        assert_eq!(compact_json(&value_to_json(&value)), serde_json::to_string(&value).unwrap());
    }
    for s in TEXTS {
        assert_eq!(compact_json(&Json::Text(s.to_string())), serde_json::to_string(s).unwrap());
    }
}

#[test]
fn canonical_text_sorts_the_keys_at_every_depth() {
    let field = |key: &str, value: Json| JsonField { key: key.to_string(), value };
    let one = || Json::Number("1".to_string());
    let unsorted = Json::Object(vec![
        field("z", Json::Array(vec![Json::Object(vec![field("b", Json::Null), field("a", one())])])),
        field("é", Json::Bool(true)),
        field("B", Json::Text("x".to_string())),
    ]);
    assert_eq!(canonical_json(&unsorted), r#"{"B":"x","z":[{"a":1,"b":null}],"é":true}"#);
    // As it stands, it is written in its own order.
    assert_eq!(compact_json(&unsorted), r#"{"z":[{"b":null,"a":1}],"é":true,"B":"x"}"#);
}

#[test]
fn canonical_text_means_the_same_value() {
    for source in VALUES {
        let value: Value = serde_json::from_str(source).unwrap();
        let written = canonical_json(&value_to_json(&value));
        let read: Value = serde_json::from_str(&written).unwrap();
        assert_eq!(read, value);
    }
}

#[test]
fn canonical_text_forgets_the_order_of_keys_and_not_of_items() {
    let field = |key: &str, value: Json| JsonField { key: key.to_string(), value };
    let inner = |first: &str, second: &str| {
        Json::Object(vec![
            field(first, Json::Text(first.to_string())),
            field(second, Json::Text(second.to_string())),
        ])
    };
    let outer = |swapped: bool| {
        let (p, q) = if swapped { ("q", "p") } else { ("p", "q") };
        let list = field("list", Json::Array(vec![inner(p, q), Json::Null]));
        let one = field("one", inner(q, p));
        Json::Object(if swapped { vec![one, list] } else { vec![list, one] })
    };
    assert_eq!(canonical_json(&outer(true)), canonical_json(&outer(false)));
    let ab = Json::Array(vec![Json::Null, Json::Bool(true)]);
    let ba = Json::Array(vec![Json::Bool(true), Json::Null]);
    assert_ne!(canonical_json(&ab), canonical_json(&ba));
}

#[test]
fn fields_are_found_by_name() {
    let value = value_to_json(&serde_json::from_str(r#"{"a": "x", "n": 1}"#).unwrap());
    assert_eq!(value.get_str("a"), Some("x"));
    assert_eq!(value.get_str("n"), None);
    assert_eq!(value.get_str("b"), None);
    assert!(value.get("n").is_some());
    assert!(Json::Null.get("a").is_none());
    assert_eq!(Json::Bool(true).as_str(), None);
}

/// A sequence of numbers without pattern.
fn next(state: &mut u64) -> u64 {
    *state ^= *state << 13;
    *state ^= *state >> 7;
    *state ^= *state << 17;
    *state
}

#[test]
fn shares_are_those_of_floating_point() {
    let mut state: u64 = 0x9e37_79b9_7f4a_7c15;
    for round in 0..200_000u32 {
        let bits = 1 + round % 31;
        let mask = (1u64 << bits) - 1;
        let d = (next(&mut state) & mask).max(1);
        let n = 1 + next(&mut state) % d;
        let a = next(&mut state) & 0x7fff_ffff;
        let product = a as f64 * (n as f64 / d as f64);
        assert_eq!(scale_round(a, n, d), product.round() as u128, "{a} {n} {d}");
        assert_eq!(scale_trunc(a, n, d), product.trunc() as u128, "{a} {n} {d}");
    }
}

#[test]
fn shares_of_large_numbers_are_those_of_floating_point() {
    let mut state: u64 = 0x2545_f491_4f6c_dd1d;
    for round in 0..100_000u32 {
        let bits = 1 + round % 63;
        let mask = (1u64 << bits) - 1;
        let d = (next(&mut state) & mask).max(1);
        let n = 1 + next(&mut state) % d;
        let a = next(&mut state) & mask;
        let product = a as f64 * (n as f64 / d as f64);
        assert_eq!(scale_trunc(a, n, d), product as u128, "{a} {n} {d}");
    }
}

#[test]
fn halves_are_rounded_away_from_zero() {
    assert_eq!(scale_round(1, 1, 2), 1);
    assert_eq!(scale_round(3, 1, 2), 2);
    assert_eq!(scale_round(5, 1, 10), 1);
    assert_eq!(scale_trunc(3, 1, 2), 1);
    assert_eq!(scale_round(1000, 80, 100), 800);
    // One third is not exact in floating point, and three thirds are one all the same.
    assert_eq!(scale_trunc(3, 1, 3), 1);
    // A hundred times 0.29 falls short of 29 in floating point.
    assert_eq!(scale_trunc(100, 29, 100), (100.0 * (29.0 / 100.0)) as u128);
}
