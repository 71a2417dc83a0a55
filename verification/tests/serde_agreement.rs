//! Cross-checks the crate's codec against serde_json reading the same
//! documents the way the surrounding application historically did: parse as
//! a dynamic value, look up `templates`, take it as an array of strings.

use template_editor::codec::decode;
use template_editor::codec::encode;

fn serde_decode(raw: &str) -> Option<Vec<String>> {
    let value = serde_json::from_str::<serde_json::Value>(raw).ok()?;
    let arr = value["templates"].as_array()?;
    let mut out = Vec::new();
    for v in arr {
        out.push(v.as_str()?.to_string());
    }
    Some(out)
}

#[test]
fn decode_agrees_with_serde_on_varied_inputs() {
    let inputs = [
        "",
        "not json",
        "{}",
        "null",
        "[\"a\"]",
        "{\"templates\": []}",
        "{\"templates\": [\"a\", \"b\"]}",
        "  { \"templates\" : [ \"a\" ] } ",
        "{\"templates\": [1, 2]}",
        "{\"templates\": [\"a\", 1]}",
        "{\"templates\": \"a\"}",
        "{\"templates\": null}",
        "{\"other\": {\"x\": [1, true, null, -2.5e-3]}, \"templates\": [\"z\"]}",
        "{\"templates\": [1], \"templates\": [\"ok\"]}",
        "{\"templates\": [\"ok\"], \"templates\": [1]}",
        "{\"templates\": [\"\\u0041\\n\\t\\\"\\\\\\/\\b\\f\\r\"]}",
        "{\"templates\": [\"\\ud83d\\ude00\"]}",
        "{\"templates\": [\"\\ud800\"]}",
        "{\"templates\": [\"a\nb\"]}",
        "{\"templates\": [\"a\"]",
        "{\"templates\": [\"a\"]} trailing",
        "{\"templates\": [\"a\",]}",
        "{\"x\": 01, \"templates\": [\"a\"]}",
        "{\"x\": [0, -0, 12, -3.5, 0.25, 2e8, 2E+8, 7e-2], \"templates\": [\"a\"]}",
        "{\"x\" 1, \"templates\": [\"a\"]}",
        "{\"templates\": [\"h\u{e9}llo \u{2603}\"]}",
    ];
    for raw in inputs {
        assert_eq!(decode(raw), serde_decode(raw), "input: {raw:?}");
    }
}

#[test]
fn encoded_documents_parse_with_serde() {
    let texts = vec![
        "a".to_string(),
        "with \"quotes\" and \\backslash\\".to_string(),
        "line\nbreak\tand\u{1}control".to_string(),
        "h\u{e9}llo \u{2603} \u{1f600}".to_string(),
        "".to_string(),
    ];
    let doc = encode(&texts);
    assert_eq!(serde_decode(&doc), Some(texts));
}
