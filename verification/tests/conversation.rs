use chatstore::chat::{Chat, ChatMessage, Sender, Timestamp};

fn msg(sender: Sender, text: &str, h: u8, m: u8, s: u8) -> ChatMessage {
    ChatMessage {
        sender,
        content: text.to_string(),
        timestamp: Timestamp::new(h, m, s),
    }
}

#[test]
fn message_new_keeps_sender_and_content() {
    let m = ChatMessage::new(Sender::User, "hello".to_string());
    assert!(matches!(m.sender, Sender::User));
    assert_eq!(m.content, "hello");
    assert!(m.timestamp.hour < 24);
    assert!(m.timestamp.minute < 60);
    assert!(m.timestamp.second < 60);
}

#[test]
fn chat_new_is_empty() {
    let c = Chat::new(7, "m1".to_string());
    assert_eq!(c.id, 7);
    assert_eq!(c.model, "m1");
    assert!(c.messages.is_empty());
}

#[test]
fn line_format_is_exact() {
    let m = msg(Sender::User, "hi there", 9, 5, 0);
    assert_eq!(m.line(), "[09:05:00] User: hi there");
    let m2 = msg(Sender::Model, "ok", 23, 59, 59);
    assert_eq!(m2.line(), "[23:59:59] Model: ok");
}

#[test]
fn line_with_empty_content() {
    let m = msg(Sender::Model, "", 0, 0, 0);
    assert_eq!(m.line(), "[00:00:00] Model: ");
}

#[test]
fn render_preserves_message_order() {
    let mut c = Chat::new(1, "m".to_string());
    c.add_message(msg(Sender::User, "first", 10, 0, 1));
    c.add_message(msg(Sender::Model, "second", 10, 0, 2));
    c.add_message(msg(Sender::User, "third", 10, 0, 3));
    let lines = c.render();
    assert_eq!(
        lines,
        vec![
            "[10:00:01] User: first".to_string(),
            "[10:00:02] Model: second".to_string(),
            "[10:00:03] User: third".to_string(),
        ]
    );
}

#[test]
fn add_message_appends_at_end() {
    let mut c = Chat::new(2, "m".to_string());
    c.add_message(msg(Sender::User, "a", 1, 2, 3));
    c.add_message(msg(Sender::Model, "b", 4, 5, 6));
    assert_eq!(c.messages.len(), 2);
    assert_eq!(c.messages[0].content, "a");
    assert_eq!(c.messages[1].content, "b");
}
