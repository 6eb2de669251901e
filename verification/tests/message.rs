//! Messages and results.

use loopctl::message::{ImageSource, Message, MessagePart, Role, ToolResult, ToolResultPart};

#[test]
fn test_message_user_shortcut() {
    let msg = Message::user("Hello");
    assert_eq!(msg.role, Role::User);
    assert_eq!(msg.parts.len(), 1);
    assert_eq!(msg.parts[0].as_text(), Some("Hello"));
}

#[test]
fn test_message_assistant_shortcut() {
    let msg = Message::assistant("Hi there!");
    assert_eq!(msg.role, Role::Assistant);
    assert_eq!(msg.parts.len(), 1);
}

#[test]
fn test_message_display() {
    let msg = Message::user("Hello world");
    assert_eq!(msg.to_text(), "Hello world");
}

#[test]
fn test_message_display_with_tool_call() {
    let msg = Message {
        role: Role::Assistant,
        parts: vec![MessagePart::tool_call(
            "id1",
            "read_file",
            "{\"path\": \"/tmp/test.txt\"}",
        )],
    };
    let display = msg.to_text();
    assert!(display.contains("Tool: read_file"));
    assert_eq!(
        display,
        "[Tool: read_file with input: {\"path\":\"/tmp/test.txt\"}]",
        "the input is shown in its compact form"
    );
}

#[test]
fn test_role_display() {
    assert_eq!(Role::User.to_text(), "user");
    assert_eq!(Role::Assistant.to_text(), "assistant");
}

#[test]
fn test_part_helpers() {
    let text = MessagePart::text("hello");
    assert!(text.is_text());
    assert!(!text.is_tool_call());
    assert_eq!(text.as_text(), Some("hello"));

    let tool_call = MessagePart::tool_call("id", "tool", "{}");
    assert!(tool_call.is_tool_call());
    assert!(!tool_call.is_text());
    assert!(tool_call.as_text().is_none());

    let tool_result = MessagePart::tool_result("id", "ok".into(), false);
    assert!(tool_result.is_tool_result());
}

#[test]
fn test_image_source() {
    let src = ImageSource::new_base64("image/png", "iVBOR...");
    assert_eq!(src.encoding, "base64");
    assert_eq!(src.media_type, "image/png");
}

#[test]
fn test_tool_result_from_string() {
    let result: ToolResult = "hello".into();
    assert!(result.is_string());
    assert_eq!(result.to_text(), "hello");
}

#[test]
fn test_tool_result_default() {
    let result = ToolResult::default();
    assert!(result.is_string());
}

#[test]
fn test_tool_result_part_text() {
    let part = ToolResultPart::text("output");
    match &part {
        ToolResultPart::Text { text } => assert_eq!(text, "output"),
        _ => panic!("expected text part"),
    }
}

#[test]
fn test_tool_result_multipart_display() {
    let result = ToolResult::from_multipart(vec![
        ToolResultPart::text("line 1"),
        ToolResultPart::text("line 2"),
    ]);
    assert_eq!(result.to_text(), "line 1\nline 2");
}

#[test]
fn images_are_left_out_of_a_result_and_named_in_a_message() {
    let image = ImageSource::new_base64("image/jpeg", "AAAA");
    let result = ToolResult::from_multipart(vec![
        ToolResultPart::text("before"),
        ToolResultPart::image(image.clone()),
        ToolResultPart::text("after"),
    ]);
    assert_eq!(result.to_text(), "before\nafter");
    let msg = Message::new(
        Role::User,
        vec![
            MessagePart::Image { source: image },
            MessagePart::tool_result("c1", result, true),
            MessagePart::text("end"),
        ],
    );
    assert_eq!(
        msg.to_text(),
        "[Image: image/jpeg]\n[Tool Result: before\nafter]\nend"
    );
}

#[test]
fn a_call_whose_input_cannot_be_read_is_shown_as_it_is() {
    let msg = Message::new(
        Role::Assistant,
        vec![
            MessagePart::text("first"),
            MessagePart::tool_call("c", "t", "{not json"),
            MessagePart::text("last"),
        ],
    );
    assert_eq!(msg.to_text(), "first\n[Tool: t with input: {not json]\nlast");
}

#[test]
fn keys_are_shown_in_order() {
    let msg = Message::new(
        Role::Assistant,
        vec![MessagePart::tool_call("c", "t", "{ \"b\": 2, \"a\": [1, null] }")],
    );
    assert_eq!(
        msg.to_text(),
        "[Tool: t with input: {\"a\":[1,null],\"b\":2}]"
    );
}

#[test]
fn an_owned_text_is_a_result_as_it_is() {
    let result = ToolResult::from(String::from("owned"));
    assert_eq!(result, ToolResult::from_string("owned"));
}

#[test]
fn an_empty_message_is_an_empty_text() {
    assert_eq!(Message::new(Role::User, vec![]).to_text(), "");
    assert_eq!(ToolResult::from_multipart(vec![]).to_text(), "");
}

#[test]
fn an_input_is_shown_compact_or_as_it_is() {
    let call = |input: &str| {
        Message::new(Role::Assistant, vec![MessagePart::tool_call("id", "t", input)])
    };
    assert_eq!(
        call("{ \"b\": 1, \"a\": 2 }").to_text(),
        "[Tool: t with input: {\"a\":2,\"b\":1}]"
    );
    let deep = format!("{}{}", "[".repeat(300), "]".repeat(300));
    assert_eq!(
        call(&deep).clone().to_text(),
        format!("[Tool: t with input: {deep}]")
    );
}
