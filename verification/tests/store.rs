use chatstore::api::APIClient;
use chatstore::chat::{Chat, ChatMessage, Sender, Timestamp};
use chatstore::codec::DecodeError;
use chatstore::storage::Storage;

fn chat_with(id: usize, model: &str, texts: &[&str]) -> Chat {
    let mut c = Chat {
        id,
        model: model.to_string(),
        messages: Vec::new(),
        timestamp: Timestamp::new(12, 30, 45),
    };
    for (i, t) in texts.iter().enumerate() {
        let sender = if i % 2 == 0 { Sender::User } else { Sender::Model };
        c.add_message(ChatMessage {
            sender,
            content: t.to_string(),
            timestamp: Timestamp::new(12, 31, i as u8),
        });
    }
    c
}

fn sample_store() -> Storage {
    let mut s = Storage::new("history.bin".to_string());
    s.add_api_client(APIClient::new(
        "https://api.example".to_string(),
        "SECRET-REDACTED".to_string(),
        vec!["m1".to_string(), "m2".to_string()],
    ));
    s.add_api_client(APIClient::new("e2".to_string(), "k2".to_string(), vec![]));
    s.add_chat(chat_with(1, "m1", &["hello", "world"]));
    s.add_chat(chat_with(2, "m2", &["unicode: \u{00e9}\u{4e16}\u{1f600}"]));
    s
}

#[test]
fn save_load_round_trip() {
    let s = sample_store();
    let bytes = s.save();
    let mut loaded = Storage::new("elsewhere.bin".to_string());
    assert!(loaded.load(&bytes).is_ok());
    assert_eq!(loaded.api_clients, s.api_clients);
    assert_eq!(loaded.chats, s.chats);
    assert_eq!(loaded.path, "elsewhere.bin");
}

#[test]
fn save_load_round_trip_empty_store() {
    let s = Storage::new("p".to_string());
    let bytes = s.save();
    let mut loaded = sample_store();
    assert!(loaded.load(&bytes).is_ok());
    assert!(loaded.api_clients.is_empty());
    assert!(loaded.chats.is_empty());
    assert_eq!(loaded.path, "history.bin");
}

#[test]
fn load_rejects_empty_bytes() {
    let mut s = Storage::new("p".to_string());
    assert_eq!(s.load(&[]), Err(DecodeError));
}

#[test]
fn load_rejects_wrong_version_byte() {
    let mut bytes = sample_store().save();
    bytes[0] = bytes[0].wrapping_add(1);
    let mut s = Storage::new("p".to_string());
    assert_eq!(s.load(&bytes), Err(DecodeError));
}

#[test]
fn load_rejects_truncated_bytes() {
    let bytes = sample_store().save();
    let mut s = Storage::new("p".to_string());
    assert_eq!(s.load(&bytes[..bytes.len() - 1]), Err(DecodeError));
}

#[test]
fn load_rejects_trailing_garbage() {
    let mut bytes = sample_store().save();
    bytes.push(0);
    let mut s = Storage::new("p".to_string());
    assert_eq!(s.load(&bytes), Err(DecodeError));
}

#[test]
fn failed_load_leaves_store_unchanged() {
    let mut s = sample_store();
    let before = s.clone();
    assert!(s.load(&[1, 2, 3]).is_err());
    assert_eq!(s, before);
}

#[test]
fn minimal_empty_encoding_loads() {
    // version byte, zero entries, zero chats
    let mut bytes = vec![1u8];
    bytes.extend_from_slice(&[0u8; 16]);
    let mut s = Storage::new("p".to_string());
    assert!(s.load(&bytes).is_ok());
    assert!(s.api_clients.is_empty());
    assert!(s.chats.is_empty());
}

#[test]
fn update_chat_twice_is_idempotent() {
    let mut s = sample_store();
    let c = chat_with(2, "m9", &["replacement"]);
    s.update_chat(c.clone());
    s.update_chat(c.clone());
    assert_eq!(s.chats.len(), 2);
    let matching: Vec<&Chat> = s.chats.iter().filter(|x| x.id == 2).collect();
    assert_eq!(matching.len(), 1);
    assert_eq!(*matching[0], c);
}

#[test]
fn update_chat_replaces_in_place() {
    let mut s = Storage::new("p".to_string());
    s.add_chat(chat_with(1, "a", &[]));
    s.add_chat(chat_with(2, "b", &[]));
    s.add_chat(chat_with(3, "c", &[]));
    let b2 = chat_with(2, "b-new", &["x"]);
    s.update_chat(b2.clone());
    assert_eq!(s.chats.len(), 3);
    assert_eq!(s.chats[0].id, 1);
    assert_eq!(s.chats[1], b2);
    assert_eq!(s.chats[2].id, 3);
}

#[test]
fn update_chat_appends_on_new_id() {
    let mut s = Storage::new("p".to_string());
    s.add_chat(chat_with(1, "a", &[]));
    s.add_chat(chat_with(2, "b", &[]));
    s.add_chat(chat_with(3, "c", &[]));
    let d = chat_with(4, "d", &[]);
    s.update_chat(d.clone());
    assert_eq!(s.chats.len(), 4);
    assert_eq!(s.chats[3], d);
}

#[test]
fn add_chat_appends_unconditionally() {
    let mut s = Storage::new("p".to_string());
    s.add_chat(chat_with(1, "a", &[]));
    s.add_chat(chat_with(1, "a-again", &[]));
    assert_eq!(s.chats.len(), 2);
}
