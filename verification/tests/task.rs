use std::path::PathBuf;

use dagflow::json::Json;
use dagflow::task::{Context, TaskOutput};

fn value(json: &Json) -> serde_json::Value {
    serde_json::from_str(json.text()).unwrap()
}

#[test]
fn context_state_roundtrip() {
    let mut ctx = Context::new("run-1".to_string(), PathBuf::from("/tmp"));
    ctx.put("k".to_string(), TaskOutput::Int(7));
    assert_eq!(ctx.get("k"), Some(TaskOutput::Int(7)));
    assert_eq!(ctx.get("missing"), None);
}

#[test]
fn task_output_as_json_normalizes() {
    assert_eq!(value(&TaskOutput::Unit.as_json()), serde_json::Value::Null);
    assert_eq!(value(&TaskOutput::Int(5).as_json()), serde_json::Value::from(5));
    assert_eq!(
        value(&TaskOutput::Text("ok".into()).as_json()),
        serde_json::Value::from("ok")
    );
}

#[test]
fn last_published_output_counts() {
    let mut ctx = Context::new("run-1".to_string(), PathBuf::from("/scratch"));
    assert_eq!(ctx.run_id, "run-1");
    assert_eq!(ctx.scratch_dir, PathBuf::from("/scratch"));
    ctx.put("k".to_string(), TaskOutput::Int(1));
    ctx.put("k".to_string(), TaskOutput::Text("two".to_string()));
    assert_eq!(ctx.get("k"), Some(TaskOutput::Text("two".to_string())));
}

#[test]
fn outputs_as_json_text() {
    assert_eq!(TaskOutput::Unit.as_json().text(), "null");
    assert_eq!(TaskOutput::Int(i64::MIN).as_json().text(), "-9223372036854775808");
    assert_eq!(TaskOutput::Int(0).as_json().text(), "0");
    assert_eq!(
        TaskOutput::Text("a\"b\\c\n\u{1}\u{e9}".to_string()).as_json().text(),
        "\"a\\\"b\\\\c\\n\\u0001\u{e9}\""
    );
    let nested = Json::parse(" {\"rows\": [1, 2]}").unwrap();
    assert_eq!(nested.text(), "{\"rows\":[1,2]}");
    assert_eq!(TaskOutput::Json(nested.clone()).as_json(), nested);
}

#[test]
fn strings_are_escaped_as_json_asks() {
    let all: String = (0u32..0x80).map(|c| char::from_u32(c).unwrap()).collect();
    let json = Json::string(&all);
    assert_eq!(value(&json), serde_json::Value::from(all));
    assert_eq!(Json::string("\u{8}\u{c}\r\t\u{1f}\u{7f}").text(), "\"\\b\\f\\r\\t\\u001f\u{7f}\"");
}

#[test]
fn objects_list_their_fields() {
    let fields = vec![
        ("kind".to_string(), Json::string("file")),
        ("list".to_string(), Json::list(&vec!["a".to_string(), "[b\"".to_string()])),
        ("none".to_string(), Json::null()),
        ("task_id".to_string(), Json::string("x\"y")),
    ];
    assert_eq!(
        Json::object(&fields).text(),
        "{\"kind\":\"file\",\"list\":[\"a\",\"[b\\\"\"],\"none\":null,\"task_id\":\"x\\\"y\"}"
    );
    assert_eq!(Json::object(&Vec::new()).text(), "{}");
    assert_eq!(Json::list(&Vec::new()).text(), "[]");
}

#[test]
fn only_json_is_read() {
    assert!(Json::parse("{\"rows\":").is_none());
    assert!(Json::parse("plain").is_none());
    assert!(Json::parse("").is_none());
    for text in ["null", "-0.0", "1.7976931348623157e+308", "0.1", "18446744073709551615"] {
        assert_eq!(Json::parse(text).unwrap().text(), text);
    }
    let json = Json::parse("{ \"b\" : 1.50, \"a\" : [ ] , \"b\" : \"\\u0041\" }").unwrap();
    assert_eq!(json.text(), "{\"a\":[],\"b\":\"A\"}");
    assert_eq!(Json::parse(json.text()), Some(json));
}

#[test]
fn compact_text_reads_as_itself() {
    let mut bits: u64 = 0x9e3779b97f4a7c15;
    for _ in 0..20000 {
        bits = bits.wrapping_mul(6364136223846793005).wrapping_add(1442695040888963407);
        let n = f64::from_bits(bits);
        if n.is_finite() {
            let text = serde_json::Value::from(n).to_string();
            assert_eq!(Json::parse(&text).unwrap().text(), text);
        }
    }
}
