use template_editor::codec::decode;
use template_editor::codec::encode;

fn enc(texts: &[&str]) -> String {
    let items: Vec<String> = texts.iter().map(|t| t.to_string()).collect();
    encode(&items)
}

fn dec(raw: &str) -> Option<Vec<String>> {
    decode(raw)
}

fn some(texts: &[&str]) -> Option<Vec<String>> {
    Some(texts.iter().map(|t| t.to_string()).collect())
}

#[test]
fn round_trip_plain_texts() {
    let texts = vec![
        "a".to_string(),
        "b c".to_string(),
        "".to_string(),
        "with \"quotes\" and \\backslash\\".to_string(),
        "line\nbreak\tand\rcontrol\u{1}".to_string(),
        "h\u{e9}llo \u{2603} \u{1f600}".to_string(),
    ];
    let doc = encode(&texts);
    assert_eq!(decode(&doc), Some(texts));
}

#[test]
fn round_trip_empty_list() {
    let texts: Vec<String> = Vec::new();
    let doc = encode(&texts);
    assert_eq!(decode(&doc), Some(texts));
}

#[test]
fn tolerant_decode_yields_nothing() {
    assert_eq!(dec(""), None);
    assert_eq!(dec("{}"), None);
    assert_eq!(dec("{\"templates\": [1,2]}"), None);
    assert_eq!(dec("not json"), None);
}

#[test]
fn encode_exact_documents() {
    assert_eq!(enc(&[]), "{\"templates\":[]}");
    assert_eq!(enc(&["a"]), "{\"templates\":[\"a\"]}");
    assert_eq!(enc(&["a", "b"]), "{\"templates\":[\"a\",\"b\"]}");
    assert_eq!(enc(&["x\"y\\z"]), "{\"templates\":[\"x\\\"y\\\\z\"]}");
    assert_eq!(enc(&["\n"]), "{\"templates\":[\"\\u000a\"]}");
    assert_eq!(enc(&["\u{1f}"]), "{\"templates\":[\"\\u001f\"]}");
}

#[test]
fn decode_simple_document() {
    assert_eq!(dec("{\"templates\": [\"a\", \"b\"]}"), some(&["a", "b"]));
    assert_eq!(dec("{\"templates\":[]}"), some(&[]));
    assert_eq!(dec("  {  \"templates\" : [ \"a\" ]  }  "), some(&["a"]));
}

#[test]
fn decode_ignores_unknown_keys() {
    let raw = "{\"other\": {\"x\": [1, true, null, -2.5e-3]}, \"templates\": [\"z\"], \"more\": false}";
    assert_eq!(dec(raw), some(&["z"]));
}

#[test]
fn decode_last_duplicate_key_wins() {
    assert_eq!(dec("{\"templates\": [1], \"templates\": [\"ok\"]}"), some(&["ok"]));
    assert_eq!(dec("{\"templates\": [\"ok\"], \"templates\": [1]}"), None);
}

#[test]
fn decode_unescapes_strings() {
    assert_eq!(dec("{\"templates\": [\"\\u0041\\n\\t\\\"\\\\\\/\\b\\f\\r\"]}"), some(&[
        "A\n\t\"\\/\u{8}\u{c}\r",
    ]));
    assert_eq!(dec("{\"templates\": [\"\\ud83d\\ude00\"]}"), some(&["\u{1f600}"]));
    assert_eq!(dec("{\"templates\": [\"\\uD83D\\uDE00\"]}"), some(&["\u{1f600}"]));
}

#[test]
fn decode_rejects_malformed_documents() {
    // templates present but not an array of strings
    assert_eq!(dec("{\"templates\": \"a\"}"), None);
    assert_eq!(dec("{\"templates\": {\"a\": 1}}"), None);
    assert_eq!(dec("{\"templates\": [\"a\", 1]}"), None);
    assert_eq!(dec("{\"templates\": null}"), None);
    // structural damage
    assert_eq!(dec("{\"templates\": [\"a\"]"), None);
    assert_eq!(dec("{\"templates\": [\"a\"]} trailing"), None);
    assert_eq!(dec("{\"templates\": [\"a\",]}"), None);
    assert_eq!(dec("{\"templates\": [\"a\"] \"b\"}"), None);
    assert_eq!(dec("[\"a\"]"), None);
    // bad escapes and raw control characters
    assert_eq!(dec("{\"templates\": [\"\\ud800\"]}"), None);
    assert_eq!(dec("{\"templates\": [\"\\ude00\\ud83d\"]}"), None);
    assert_eq!(dec("{\"templates\": [\"\\x41\"]}"), None);
    assert_eq!(dec("{\"templates\": [\"a\nb\"]}"), None);
    // bad numbers elsewhere in the object
    assert_eq!(dec("{\"x\": 01, \"templates\": [\"a\"]}"), None);
    assert_eq!(dec("{\"x\": 1., \"templates\": [\"a\"]}"), None);
    assert_eq!(dec("{\"x\": 1e, \"templates\": [\"a\"]}"), None);
}

#[test]
fn decode_accepts_number_forms() {
    let raw = "{\"x\": [0, -0, 12, -3.5, 0.25, 2e8, 2E+8, 7e-2], \"templates\": [\"a\"]}";
    assert_eq!(dec(raw), some(&["a"]));
}
