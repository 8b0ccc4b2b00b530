//! The conversation model: messages, chats, and their rendering.

use chrono::Timelike;
use vstd::prelude::*;

verus! {

/// Who authored a message: the human user or the backend model.
#[derive(Clone, Copy, PartialEq, Eq, Structural, Debug)]
pub enum Sender {
    User,
    Model,
}

/// A local wall-clock time of day, captured when a message or a chat is created.
#[derive(Clone, Copy, PartialEq, Eq, Structural, Debug)]
pub struct Timestamp {
    pub hour: u8,
    pub minute: u8,
    pub second: u8,
}

impl Timestamp {
    /// A valid time of day.
    pub open spec fn wf(self) -> bool {
        self.hour < 24 && self.minute < 60 && self.second < 60
    }

    pub fn new(hour: u8, minute: u8, second: u8) -> (r: Timestamp)
        requires
            hour < 24,
            minute < 60,
            second < 60,
        ensures
            r == (Timestamp { hour, minute, second }),
    {
        Timestamp { hour, minute, second }
    }
}

/// Relies on chrono::Local::now and chrono::Timelike: hour is 0 to 23,
/// minute and second are 0 to 59.
#[verifier::external_body]
pub fn now_local() -> (r: Timestamp)
    ensures
        r.wf(),
{
    let now = chrono::Local::now();
    Timestamp {
        hour: now.hour() as u8,
        minute: now.minute() as u8,
        second: now.second() as u8,
    }
}

/// The mathematical content of a `ChatMessage`.
pub struct MessageView {
    pub sender: Sender,
    pub content: Seq<char>,
    pub timestamp: Timestamp,
}

/// One turn in a chat, immutable once created.
#[derive(Clone, PartialEq, Debug)]
pub struct ChatMessage {
    pub sender: Sender,
    pub content: String,
    pub timestamp: Timestamp,
}

impl View for ChatMessage {
    type V = MessageView;

    open spec fn view(&self) -> MessageView {
        MessageView { sender: self.sender, content: self.content@, timestamp: self.timestamp }
    }
}

impl ChatMessage {
    /// Creates a message stamped with the current local time.
    pub fn new(sender: Sender, text: String) -> (r: ChatMessage)
        ensures
            r@.sender == sender,
            r@.content == text@,
            r@.timestamp.wf(),
    {
        ChatMessage { sender, content: text, timestamp: now_local() }
    }

    /// The one-line rendering of this message, `[HH:MM:SS] <SenderLabel>: <content>`.
    pub fn line(&self) -> (r: String)
        requires
            self@.timestamp.wf(),
        ensures
            r@ == spec_line(self@),
    {
        let mut out = String::new();
        push_char(&mut out, '[');
        push_two_digits(&mut out, self.timestamp.hour);
        push_char(&mut out, ':');
        push_two_digits(&mut out, self.timestamp.minute);
        push_char(&mut out, ':');
        push_two_digits(&mut out, self.timestamp.second);
        push_char(&mut out, ']');
        push_char(&mut out, ' ');
        match self.sender {
            Sender::User => {
                out.append("User");
                proof {
                    reveal_strlit("User");
                    assert(("User")@ =~= sender_label(Sender::User));
                }
            },
            Sender::Model => {
                out.append("Model");
                proof {
                    reveal_strlit("Model");
                    assert(("Model")@ =~= sender_label(Sender::Model));
                }
            },
        }
        push_char(&mut out, ':');
        push_char(&mut out, ' ');
        out.append(self.content.as_str());
        proof {
            assert(out@ =~= spec_line(self@));
        }
        out
    }
}

/// The decimal digit character for `d`.
pub open spec fn digit_char(d: int) -> char
    recommends
        0 <= d < 10,
{
    if d == 0 { '0' }
    else if d == 1 { '1' }
    else if d == 2 { '2' }
    else if d == 3 { '3' }
    else if d == 4 { '4' }
    else if d == 5 { '5' }
    else if d == 6 { '6' }
    else if d == 7 { '7' }
    else if d == 8 { '8' }
    else { '9' }
}

/// `n` written as exactly two decimal digits.
pub open spec fn two_digits(n: int) -> Seq<char>
    recommends
        0 <= n < 100,
{
    seq![digit_char(n / 10), digit_char(n % 10)]
}

/// The label under which a sender appears in a rendered line.
pub open spec fn sender_label(s: Sender) -> Seq<char> {
    match s {
        Sender::User => seq!['U', 's', 'e', 'r'],
        Sender::Model => seq!['M', 'o', 'd', 'e', 'l'],
    }
}

/// The one-line rendering of a message: `[HH:MM:SS] <SenderLabel>: <content>`.
pub open spec fn spec_line(m: MessageView) -> Seq<char> {
    seq!['[']
        + two_digits(m.timestamp.hour as int)
        + seq![':']
        + two_digits(m.timestamp.minute as int)
        + seq![':']
        + two_digits(m.timestamp.second as int)
        + seq![']', ' ']
        + sender_label(m.sender)
        + seq![':', ' ']
        + m.content
}

/// Relies on String::push: it appends the one character at the end.
#[verifier::external_body]
pub(crate) fn push_char(s: &mut String, c: char)
    ensures
        final(s)@ == old(s)@.push(c),
{
    s.push(c);
}

fn digit(d: u8) -> (c: char)
    requires
        d < 10,
    ensures
        c == digit_char(d as int),
{
    match d {
        0 => '0',
        1 => '1',
        2 => '2',
        3 => '3',
        4 => '4',
        5 => '5',
        6 => '6',
        7 => '7',
        8 => '8',
        _ => '9',
    }
}

fn push_two_digits(out: &mut String, n: u8)
    requires
        n < 100,
    ensures
        final(out)@ == old(out)@ + two_digits(n as int),
{
    let tens: u8 = n / 10;
    let ones: u8 = n % 10;
    push_char(out, digit(tens));
    push_char(out, digit(ones));
    proof {
        assert(out@ =~= old(out)@ + two_digits(n as int));
    }
}

/// The mathematical content of a `Chat`.
pub struct ChatView {
    pub id: usize,
    pub model: Seq<char>,
    pub messages: Seq<MessageView>,
    pub timestamp: Timestamp,
}

/// One conversation with a backend model, identified by a stable id and
/// holding its message history in conversation order.
#[derive(Clone, PartialEq, Debug)]
pub struct Chat {
    pub id: usize,
    pub model: String,
    pub messages: Vec<ChatMessage>,
    pub timestamp: Timestamp,
}

impl View for Chat {
    type V = ChatView;

    open spec fn view(&self) -> ChatView {
        ChatView {
            id: self.id,
            model: self.model@,
            messages: self.messages@.map_values(|m: ChatMessage| m@),
            timestamp: self.timestamp,
        }
    }
}

impl Chat {
    /// Creates an empty chat stamped with the current local time.
    pub fn new(id: usize, model: String) -> (r: Chat)
        ensures
            r@.id == id,
            r@.model == model@,
            r@.messages == Seq::<MessageView>::empty(),
            r@.timestamp.wf(),
    {
        let r = Chat { id, model, messages: Vec::new(), timestamp: now_local() };
        proof {
            assert(r@.messages =~= Seq::<MessageView>::empty());
        }
        r
    }

    /// Appends a message at the end of the history; nothing else changes.
    pub fn add_message(&mut self, msg: ChatMessage)
        ensures
            final(self)@.messages == old(self)@.messages.push(msg@),
            final(self)@.id == old(self)@.id,
            final(self)@.model == old(self)@.model,
            final(self)@.timestamp == old(self)@.timestamp,
    {
        self.messages.push(msg);
        proof {
            assert(self@.messages =~= old(self)@.messages.push(msg@));
        }
    }

    /// Renders the history, one line per message, in conversation order.
    pub fn render(&self) -> (r: Vec<String>)
        requires
            forall|i: int| 0 <= i < self@.messages.len() ==> self@.messages[i].timestamp.wf(),
        ensures
            r@.len() == self@.messages.len(),
            forall|i: int| 0 <= i < r@.len() ==> r@[i]@ == spec_line(self@.messages[i]),
    {
        let mut r: Vec<String> = Vec::new();
        let mut j: usize = 0;
        while j < self.messages.len()
            invariant
                j <= self.messages.len(),
                r@.len() == j,
                forall|i: int| 0 <= i < self@.messages.len() ==> self@.messages[i].timestamp.wf(),
                forall|i: int| 0 <= i < j ==> r@[i]@ == spec_line(self@.messages[i]),
            decreases self.messages.len() - j,
        {
            proof {
                assert(self@.messages[j as int] == self.messages@.map_values(|m: ChatMessage| m@)[j as int]);
            }
            r.push(self.messages[j].line());
            j += 1;
        }
        r
    }
}

} // verus!
