use prompt_relay::conversation::{InputSchema, Tool, ToolSpecification};
use prompt_relay::json::{Json, JsonField};
use prompt_relay::json_text::compact_json;
use prompt_relay::tool_compression::{
    compress_tools_if_needed, estimate_tools_size, simplify_json_schema,
};
use serde_json::Value;

fn json_of(value: &Value) -> Json {
    match value {
        Value::Null => Json::Null,
        Value::Bool(b) => Json::Bool(*b),
        Value::Number(n) => Json::Number(n.to_string()),
        Value::String(s) => Json::Text(s.clone()),
        Value::Array(items) => Json::Array(items.iter().map(json_of).collect()),
        Value::Object(fields) => Json::Object(
            fields
                .iter()
                .map(|(key, value)| JsonField { key: key.clone(), value: json_of(value) })
                .collect(),
        ),
    }
}

fn parse(source: &str) -> Json {
    json_of(&serde_json::from_str(source).unwrap())
}

/// The value a path of keys and positions leads to.
fn at<'a>(json: &'a Json, path: &[&str]) -> &'a Json {
    path.iter().fold(json, |value, step| match value {
        Json::Array(items) => &items[step.parse::<usize>().unwrap()],
        _ => value.get(step).unwrap(),
    })
}

fn text_at<'a>(json: &'a Json, path: &[&str]) -> &'a str {
    at(json, path).as_str().unwrap()
}

fn number_at(json: &Json, path: &[&str]) -> i64 {
    match at(json, path) {
        Json::Number(n) => n.parse().unwrap(),
        other => panic!("expected a number, got {other:?}"),
    }
}

fn make_tool(name: &str, description: &str, schema: Json) -> Tool {
    Tool {
        tool_specification: ToolSpecification {
            name: name.to_string(),
            description: description.to_string(),
            input_schema: InputSchema { json: schema },
        },
    }
}

fn twenty_tools(schema: &str) -> Vec<Tool> {
    (0..20)
        .map(|idx| make_tool(&format!("tool_{idx}"), &"x".repeat(2_000), parse(schema)))
        .collect()
}

/// The length of the tools as a JSON array.
fn serialized_len(tools: &[Tool]) -> usize {
    let field = |key: &str, value: Json| JsonField { key: key.to_string(), value };
    let items = tools
        .iter()
        .map(|tool| {
            let spec = &tool.tool_specification;
            Json::Object(vec![field(
                "toolSpecification",
                Json::Object(vec![
                    field("name", Json::Text(spec.name.clone())),
                    field("description", Json::Text(spec.description.clone())),
                    field(
                        "inputSchema",
                        Json::Object(vec![field("json", spec.input_schema.json.clone())]),
                    ),
                ]),
            )])
        })
        .collect();
    compact_json(&Json::Array(items)).len()
}

#[test]
fn compress_tools_removes_schema_descriptions_when_over_threshold() {
    let tools = twenty_tools(
        r#"{
            "type": "object",
            "properties": {
                "path": {
                    "type": "string",
                    "description": "very long parameter description"
                }
            },
            "required": ["path"]
        }"#,
    );

    let original_size = serialized_len(&tools);
    let compressed = compress_tools_if_needed(&tools, 20 * 1024);
    let compressed_size = serialized_len(&compressed);

    assert!(compressed_size < original_size);
    let path_schema =
        at(&compressed[0].tool_specification.input_schema.json, &["properties", "path"]);
    assert!(path_schema.get("description").is_none());
    assert_eq!(text_at(path_schema, &["type"]), "string");
}

#[test]
fn compress_tools_preserves_polymorphic_schema_keywords() {
    let tools = twenty_tools(
        r#"{
            "type": "object",
            "properties": {
                "target": {
                    "oneOf": [
                        {
                            "type": "string",
                            "description": "path-like target"
                        },
                        {
                            "type": "object",
                            "properties": {
                                "id": {
                                    "type": "string",
                                    "description": "resource id"
                                }
                            },
                            "required": ["id"]
                        }
                    ],
                    "description": "polymorphic target"
                }
            },
            "required": ["target"]
        }"#,
    );

    let compressed = compress_tools_if_needed(&tools, 20 * 1024);
    let target =
        at(&compressed[0].tool_specification.input_schema.json, &["properties", "target"]);

    assert!(target.get("oneOf").is_some());
    assert!(matches!(at(target, &["oneOf", "0"]), Json::Object(_)));
    assert!(at(target, &["oneOf", "0"]).get("description").is_none());
    assert_eq!(text_at(target, &["oneOf", "1", "properties", "id", "type"]), "string");
    assert!(matches!(at(target, &["oneOf", "1", "properties", "id"]), Json::Object(_)));
    assert!(at(target, &["oneOf", "1", "properties", "id"]).get("description").is_none());
}

#[test]
fn compress_tools_preserves_validation_schema_keywords() {
    let tools = twenty_tools(
        r#"{
            "type": "object",
            "properties": {
                "path": {
                    "type": "string",
                    "minLength": 1,
                    "maxLength": 512,
                    "pattern": "^/",
                    "format": "uri-reference",
                    "default": "/tmp/input.txt",
                    "description": "absolute path"
                },
                "count": {
                    "type": "integer",
                    "minimum": 1,
                    "maximum": 100,
                    "multipleOf": 1,
                    "description": "bounded count"
                },
                "tags": {
                    "type": "array",
                    "items": {"type": "string", "minLength": 1},
                    "minItems": 1,
                    "maxItems": 10,
                    "uniqueItems": true,
                    "prefixItems": [{"type": "string", "const": "primary"}],
                    "description": "bounded tags"
                }
            },
            "patternProperties": {
                "^x-": {
                    "type": "string",
                    "maxLength": 20,
                    "description": "custom extension"
                }
            },
            "required": ["path"]
        }"#,
    );

    let compressed = compress_tools_if_needed(&tools, 20 * 1024);
    let json = &compressed[0].tool_specification.input_schema.json;

    assert_eq!(number_at(json, &["properties", "path", "minLength"]), 1);
    assert_eq!(number_at(json, &["properties", "path", "maxLength"]), 512);
    assert_eq!(text_at(json, &["properties", "path", "pattern"]), "^/");
    assert_eq!(text_at(json, &["properties", "path", "format"]), "uri-reference");
    assert_eq!(text_at(json, &["properties", "path", "default"]), "/tmp/input.txt");
    assert_eq!(number_at(json, &["properties", "count", "minimum"]), 1);
    assert_eq!(number_at(json, &["properties", "count", "maximum"]), 100);
    assert_eq!(number_at(json, &["properties", "count", "multipleOf"]), 1);
    assert_eq!(number_at(json, &["properties", "tags", "minItems"]), 1);
    assert_eq!(number_at(json, &["properties", "tags", "maxItems"]), 10);
    assert!(matches!(at(json, &["properties", "tags", "uniqueItems"]), Json::Bool(true)));
    assert_eq!(text_at(json, &["properties", "tags", "prefixItems", "0", "const"]), "primary");
    assert_eq!(number_at(json, &["patternProperties", "^x-", "maxLength"]), 20);
    assert!(matches!(at(json, &["properties", "path"]), Json::Object(_)));
    assert!(at(json, &["properties", "path"]).get("description").is_none());
}

#[test]
fn compress_tools_preserves_schema_references() {
    let tools = twenty_tools(
        r##"{
            "type": "object",
            "properties": {
                "target": {
                    "$ref": "#/$defs/Target",
                    "description": "referenced target"
                }
            },
            "$defs": {
                "Target": {
                    "type": "object",
                    "properties": {
                        "id": {
                            "type": "string",
                            "description": "target id"
                        }
                    },
                    "required": ["id"],
                    "description": "target definition"
                }
            },
            "definitions": {
                "LegacyTarget": {
                    "type": "string",
                    "description": "legacy target"
                }
            },
            "required": ["target"]
        }"##,
    );

    let compressed = compress_tools_if_needed(&tools, 20 * 1024);
    let json = &compressed[0].tool_specification.input_schema.json;

    assert_eq!(text_at(json, &["properties", "target", "$ref"]), "#/$defs/Target");
    assert_eq!(text_at(json, &["$defs", "Target", "type"]), "object");
    assert_eq!(text_at(json, &["$defs", "Target", "properties", "id", "type"]), "string");
    assert_eq!(text_at(json, &["definitions", "LegacyTarget", "type"]), "string");
    let id = at(json, &["$defs", "Target", "properties", "id"]);
    assert!(matches!(id, Json::Object(_)));
    assert!(id.get("description").is_none());
}

#[test]
fn compress_tools_preserves_conditional_and_dependency_schema_keywords() {
    let tools = twenty_tools(
        r#"{
            "type": "object",
            "properties": {
                "mode": {
                    "type": "string",
                    "enum": ["file", "url"],
                    "description": "input mode"
                }
            },
            "if": {
                "properties": {
                    "mode": {"const": "file"}
                },
                "description": "file mode condition"
            },
            "then": {
                "required": ["path"],
                "description": "file mode requirements"
            },
            "else": {
                "required": ["url"],
                "description": "url mode requirements"
            },
            "not": {
                "required": ["forbidden"],
                "description": "forbidden field"
            },
            "propertyNames": {
                "pattern": "^[a-z_]+$",
                "description": "property name pattern"
            },
            "contains": {
                "type": "string",
                "description": "array contains schema"
            },
            "dependentSchemas": {
                "token": {
                    "required": ["auth"],
                    "description": "token dependency schema"
                }
            },
            "dependencies": {
                "legacy": {
                    "required": ["legacy_id"],
                    "description": "legacy dependency schema"
                },
                "mode": ["path"]
            },
            "dependentRequired": {
                "mode": ["path"]
            }
        }"#,
    );

    let compressed = compress_tools_if_needed(&tools, 20 * 1024);
    let json = &compressed[0].tool_specification.input_schema.json;

    assert_eq!(text_at(json, &["if", "properties", "mode", "const"]), "file");
    assert_eq!(text_at(json, &["then", "required", "0"]), "path");
    assert_eq!(text_at(json, &["else", "required", "0"]), "url");
    assert_eq!(text_at(json, &["not", "required", "0"]), "forbidden");
    assert_eq!(text_at(json, &["propertyNames", "pattern"]), "^[a-z_]+$");
    assert_eq!(text_at(json, &["contains", "type"]), "string");
    assert_eq!(text_at(json, &["dependentSchemas", "token", "required", "0"]), "auth");
    assert_eq!(text_at(json, &["dependencies", "legacy", "required", "0"]), "legacy_id");
    assert_eq!(text_at(json, &["dependencies", "mode", "0"]), "path");
    assert_eq!(text_at(json, &["dependentRequired", "mode", "0"]), "path");
    assert!(matches!(at(json, &["dependentSchemas", "token"]), Json::Object(_)));
    assert!(at(json, &["dependentSchemas", "token"]).get("description").is_none());
}

#[test]
fn compress_tools_handles_zero_estimated_schema_size() {
    let tools = vec![make_tool("", "", Json::Null)];

    let compressed = compress_tools_if_needed(&tools, 1);

    assert_eq!(compressed[0].tool_specification.name, "");
    assert_eq!(compressed[0].tool_specification.description, "");
    assert!(matches!(compressed[0].tool_specification.input_schema.json, Json::Null));
}

#[test]
fn compress_tools_returns_original_under_threshold() {
    let tools = vec![make_tool(
        "small",
        "short description",
        parse(r#"{"type": "object", "properties": {}}"#),
    )];

    let compressed = compress_tools_if_needed(&tools, 20 * 1024);

    assert_eq!(compressed[0].tool_specification.description, "short description");
}

#[test]
fn estimate_counts_name_description_and_schema_bytes() {
    let tools = vec![make_tool("né", "ab", parse(r#"{"type":"object"}"#))];
    // Three bytes for the name, two for the description, seventeen for the schema.
    assert_eq!(estimate_tools_size(&tools), 22);
    assert_eq!(estimate_tools_size(&[]), 0);
}

#[test]
fn simplified_schema_is_written_as_expected() {
    let schema = parse(
        r#"{"type":"object","title":"T","description":"d","properties":{"a":{"description":"x","type":"string"}},"required":["a"],"examples":[1]}"#,
    );
    let simplified = simplify_json_schema(&schema);
    assert_eq!(
        compact_json(&simplified),
        r#"{"examples":[1],"properties":{"a":{"type":"string"}},"required":["a"],"title":"T","type":"object"}"#
    );
    let again = simplify_json_schema(&simplified);
    assert_eq!(compact_json(&again), compact_json(&simplified));
}

#[test]
fn descriptions_shrink_in_proportion_and_keep_fifty_characters() {
    let tools: Vec<Tool> =
        (0..4).map(|idx| make_tool(&format!("t{idx}"), &"é".repeat(500), Json::Null)).collect();
    // Two bytes of name, a thousand of description and four of schema each.
    assert_eq!(estimate_tools_size(&tools), 4024);

    // Half of the size leaves half of each description, and the character that starts there.
    for tool in &compress_tools_if_needed(&tools, 2012) {
        assert_eq!(tool.tool_specification.description, "é".repeat(251));
    }

    // With next to nothing left, fifty characters stay, and the one that starts there.
    for tool in &compress_tools_if_needed(&tools, 1) {
        assert_eq!(tool.tool_specification.description, "é".repeat(51));
    }

    // No limit, no cut.
    for tool in &compress_tools_if_needed(&tools, 0) {
        assert_eq!(tool.tool_specification.description, "é".repeat(500));
    }
}

#[test]
fn compressed_tools_are_never_larger() {
    let tools = twenty_tools(r#"{"type":"object","description":"d","properties":{}}"#);
    for max_bytes in [0, 1, 1_000, 20_000, 100_000] {
        let compressed = compress_tools_if_needed(&tools, max_bytes);
        assert_eq!(compressed.len(), tools.len());
        assert!(estimate_tools_size(&compressed) <= estimate_tools_size(&tools));
    }
}
