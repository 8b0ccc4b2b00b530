use chatstore::api::{
    completion_answer, APIClient, ChatTurn, CompletionError, Role, Thread,
};
use chatstore::chat::{Chat, ChatMessage, Sender, Timestamp};

fn sample_chat() -> Chat {
    let mut c = Chat::new(1, "m-large".to_string());
    c.add_message(ChatMessage {
        sender: Sender::User,
        content: "question".to_string(),
        timestamp: Timestamp::new(8, 0, 0),
    });
    c.add_message(ChatMessage {
        sender: Sender::Model,
        content: "answer".to_string(),
        timestamp: Timestamp::new(8, 0, 5),
    });
    c
}

fn sample_thread() -> Thread {
    let client = APIClient::new("e".to_string(), "k".to_string(), vec!["m-large".to_string()]);
    Thread::new(&client, "m-large")
}

#[test]
fn thread_new_copies_connection_data() {
    let t = sample_thread();
    assert_eq!(t.endpoint, "e");
    assert_eq!(t.api_key, "k");
    assert_eq!(t.model, "m-large");
}

#[test]
fn completion_messages_maps_roles_in_order() {
    let t = sample_thread();
    let turns = t.completion_messages("follow-up", &sample_chat());
    assert_eq!(
        turns,
        vec![
            ChatTurn { role: Role::User, content: "question".to_string() },
            ChatTurn { role: Role::Assistant, content: "answer".to_string() },
            ChatTurn { role: Role::User, content: "follow-up".to_string() },
        ]
    );
}

#[test]
fn completion_messages_on_empty_chat() {
    let t = sample_thread();
    let turns = t.completion_messages("hi", &Chat::new(2, "m".to_string()));
    assert_eq!(
        turns,
        vec![ChatTurn { role: Role::User, content: "hi".to_string() }]
    );
}

#[test]
fn completion_failure_never_propagates() {
    let outcome: Result<Vec<Option<String>>, CompletionError> = Err(CompletionError {
        detail: "connection refused".to_string(),
    });
    let answer = completion_answer(&outcome);
    assert_eq!(
        answer,
        "It seems like the model is unavailable or something went wrong."
    );
}

#[test]
fn completion_answer_takes_first_choice() {
    let outcome: Result<Vec<Option<String>>, CompletionError> =
        Ok(vec![Some("first".to_string()), Some("second".to_string())]);
    assert_eq!(completion_answer(&outcome), "first");
}

#[test]
fn completion_answer_placeholder_on_no_choices() {
    let outcome: Result<Vec<Option<String>>, CompletionError> = Ok(vec![]);
    assert_eq!(completion_answer(&outcome), "No completion response found");
}

#[test]
fn completion_answer_placeholder_on_empty_content() {
    let outcome: Result<Vec<Option<String>>, CompletionError> = Ok(vec![None]);
    assert_eq!(completion_answer(&outcome), "No completion response found");
}
