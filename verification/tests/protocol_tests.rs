use maple_cli::protocol::frame;

#[test]
fn frame_puts_the_length_in_front() {
    assert_eq!(frame("{\"total\":2}"), "Content-length: 11\n\n{\"total\":2}");
}

#[test]
fn frame_counts_bytes() {
    assert_eq!(frame("{\"lines\":[\"é\"]}"), "Content-length: 16\n\n{\"lines\":[\"é\"]}");
}

#[test]
fn frame_of_an_empty_body() {
    assert_eq!(frame(""), "Content-length: 0\n\n");
}

#[test]
fn frame_of_a_serialized_message() {
    let mut fields = serde_json::Map::new();
    fields.insert("total".to_string(), serde_json::Value::from(3u64));
    fields.insert("lines".to_string(), serde_json::Value::from(vec!["a", "b"]));
    let body = serde_json::to_string(&serde_json::Value::Object(fields)).unwrap();
    let message = frame(&body);
    let (header, rest) = message.split_once("\n\n").unwrap();
    assert_eq!(header, format!("Content-length: {}", body.len()));
    assert_eq!(rest, body);
}
