use url_clipper::json::decode_address;
use url_clipper::json::decode_entries;
use url_clipper::json::encode_clip_request;
use url_clipper::json::encode_entries;
use url_clipper::state::Entry;
use url_clipper::text::trimmed_string;

fn entry(description: &str, completed: bool) -> Entry {
    Entry { description: description.to_string(), completed, editing: false }
}

#[test]
fn encode_empty_list() {
    let v: Vec<Entry> = Vec::new();
    assert_eq!(encode_entries(&v), b"[]".to_vec());
}

#[test]
fn encode_one_entry_exact_bytes() {
    let v = vec![entry("a", false)];
    assert_eq!(
        encode_entries(&v),
        b"[{\"description\":\"a\",\"completed\":false,\"editing\":false}]".to_vec()
    );
}

#[test]
fn encode_escapes_quote_backslash_and_control() {
    let v = vec![entry("a\"b\\c\nd", true)];
    let out = encode_entries(&v);
    assert_eq!(
        out,
        b"[{\"description\":\"a\\\"b\\\\c\\u000ad\",\"completed\":true,\"editing\":false}]"
            .to_vec()
    );
}

#[test]
fn round_trip_preserves_order_and_fields() {
    let v = vec![
        entry("http://clip:8090/abc", false),
        entry("plain", true),
        Entry { description: "editing one".to_string(), completed: false, editing: true },
        entry("tricky \\ \" \t text", true),
        entry("", false),
    ];
    let bytes = encode_entries(&v);
    let back = decode_entries(&bytes).expect("canonical encoding must decode");
    assert_eq!(back.len(), v.len());
    for (a, b) in v.iter().zip(back.iter()) {
        assert_eq!(a.description, b.description);
        assert_eq!(a.completed, b.completed);
        assert_eq!(a.editing, b.editing);
    }
}

#[test]
fn decode_rejects_garbage() {
    assert!(decode_entries(b"").is_none());
    assert!(decode_entries(b"not json").is_none());
    assert!(decode_entries(b"[{\"description\":\"a\"}]").is_none());
    assert!(decode_entries(b"[{\"description\":\"a\",\"completed\":false,\"editing\":false}")
        .is_none());
}

#[test]
fn decode_rejects_raw_control_byte_in_string() {
    let mut bytes =
        b"[{\"description\":\"a\",\"completed\":false,\"editing\":false}]".to_vec();
    bytes[17] = 0x01;
    assert!(decode_entries(&bytes).is_none());
}

#[test]
fn encoder_output_is_json_for_serde() {
    let v = vec![entry("a\"b", true), entry("x", false)];
    let bytes = encode_entries(&v);
    let text = String::from_utf8(bytes).expect("encoder output is UTF-8");
    let value: serde_json::Value = serde_json::from_str(&text).expect("encoder output is JSON");
    let arr = value.as_array().expect("an array");
    assert_eq!(arr.len(), 2);
    assert_eq!(arr[0]["description"].as_str(), Some("a\"b"));
    assert_eq!(arr[0]["completed"].as_bool(), Some(true));
    assert_eq!(arr[1]["description"].as_str(), Some("x"));
    assert_eq!(arr[1]["editing"].as_bool(), Some(false));
}

#[test]
fn clip_request_body_exact_bytes() {
    assert_eq!(
        encode_clip_request("http://example.com"),
        b"{\"address\":\"http://example.com\"}".to_vec()
    );
}

#[test]
fn decode_address_success() {
    let addr = decode_address(b"{\"address\":\"abc123\"}").expect("canonical response");
    assert_eq!(addr, "abc123");
}

#[test]
fn decode_address_rejects_malformed_bodies() {
    assert!(decode_address(b"").is_none());
    assert!(decode_address(b"{\"address\":42}").is_none());
    assert!(decode_address(b"{\"address\":\"abc\"").is_none());
    assert!(decode_address(b"server error").is_none());
}

#[test]
fn trimmed_string_strips_both_ends() {
    assert_eq!(trimmed_string("  http://example.com  "), "http://example.com");
    assert_eq!(trimmed_string("\t a b \r\n"), "a b");
    assert_eq!(trimmed_string("   "), "");
    assert_eq!(trimmed_string(""), "");
    assert_eq!(trimmed_string("solid"), "solid");
}
