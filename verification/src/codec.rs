//! The binary layout of a persisted store.
//!
//! One version byte, then the credential entries, then the chats, each
//! list as a little-endian `u64` count followed by its elements. Text is
//! a count followed by one 4-byte little-endian scalar per character;
//! times are three bytes (hour, minute, second); a sender is one byte.

use crate::api::{APIClient, ClientView};
use crate::chat::{push_char, Chat, ChatMessage, ChatView, MessageView, Sender, Timestamp};
use vstd::prelude::*;
use vstd::utf8::{is_scalar, char_is_scalar, char_u32_cast};

verus! {

/// The first byte of every encoded store.
pub const FORMAT_VERSION: u8 = 1;

/// What is persisted of a store: everything but the path.
pub struct PayloadView {
    pub api_clients: Seq<ClientView>,
    pub chats: Seq<ChatView>,
}

pub open spec fn enc_u32(n: u32) -> Seq<u8> {
    seq![
        (n & 0xff) as u8,
        ((n >> 8) & 0xff) as u8,
        ((n >> 16) & 0xff) as u8,
        ((n >> 24) & 0xff) as u8,
    ]
}

pub open spec fn enc_u64(n: u64) -> Seq<u8> {
    seq![
        (n & 0xff) as u8,
        ((n >> 8) & 0xff) as u8,
        ((n >> 16) & 0xff) as u8,
        ((n >> 24) & 0xff) as u8,
        ((n >> 32) & 0xff) as u8,
        ((n >> 40) & 0xff) as u8,
        ((n >> 48) & 0xff) as u8,
        ((n >> 56) & 0xff) as u8,
    ]
}

/// The value of four little-endian bytes.
pub open spec fn u32_of(s: Seq<u8>) -> u32
    recommends
        s.len() == 4,
{
    (s[0] as u32) | ((s[1] as u32) << 8) | ((s[2] as u32) << 16) | ((s[3] as u32) << 24)
}

/// The value of eight little-endian bytes.
pub open spec fn u64_of(s: Seq<u8>) -> u64
    recommends
        s.len() == 8,
{
    (s[0] as u64) | ((s[1] as u64) << 8) | ((s[2] as u64) << 16) | ((s[3] as u64) << 24) | ((
    s[4] as u64) << 32) | ((s[5] as u64) << 40) | ((s[6] as u64) << 48) | ((s[7] as u64) << 56)
}

proof fn lemma_u32_round_trip(n: u32)
    ensures
        u32_of(enc_u32(n)) == n,
{
    assert((((n & 0xff) as u8) as u32) | ((((n >> 8) & 0xff) as u8) as u32) << 8 | ((((n >> 16)
        & 0xff) as u8) as u32) << 16 | ((((n >> 24) & 0xff) as u8) as u32) << 24 == n)
        by (bit_vector);
}

proof fn lemma_u64_round_trip(n: u64)
    ensures
        u64_of(enc_u64(n)) == n,
{
    assert((((n & 0xff) as u8) as u64) | ((((n >> 8) & 0xff) as u8) as u64) << 8 | ((((n >> 16)
        & 0xff) as u8) as u64) << 16 | ((((n >> 24) & 0xff) as u8) as u64) << 24 | ((((n >> 32)
        & 0xff) as u8) as u64) << 32 | ((((n >> 40) & 0xff) as u8) as u64) << 40 | ((((n >> 48)
        & 0xff) as u8) as u64) << 48 | ((((n >> 56) & 0xff) as u8) as u64) << 56 == n)
        by (bit_vector);
}

pub open spec fn enc_char(c: char) -> Seq<u8> {
    enc_u32(c as u32)
}

pub open spec fn enc_chars(t: Seq<char>) -> Seq<u8>
    decreases t.len(),
{
    if t.len() == 0 {
        Seq::empty()
    } else {
        enc_char(t[0]) + enc_chars(t.drop_first())
    }
}

pub open spec fn enc_string(t: Seq<char>) -> Seq<u8> {
    enc_u64(t.len() as u64) + enc_chars(t)
}

pub open spec fn enc_sender(s: Sender) -> Seq<u8> {
    match s {
        Sender::User => seq![0u8],
        Sender::Model => seq![1u8],
    }
}

pub open spec fn enc_timestamp(ts: Timestamp) -> Seq<u8> {
    seq![ts.hour, ts.minute, ts.second]
}

pub open spec fn enc_message(m: MessageView) -> Seq<u8> {
    enc_sender(m.sender) + enc_string(m.content) + enc_timestamp(m.timestamp)
}

pub open spec fn enc_messages(ms: Seq<MessageView>) -> Seq<u8>
    decreases ms.len(),
{
    if ms.len() == 0 {
        Seq::empty()
    } else {
        enc_message(ms[0]) + enc_messages(ms.drop_first())
    }
}

pub open spec fn enc_strings(ts: Seq<Seq<char>>) -> Seq<u8>
    decreases ts.len(),
{
    if ts.len() == 0 {
        Seq::empty()
    } else {
        enc_string(ts[0]) + enc_strings(ts.drop_first())
    }
}

pub open spec fn enc_client(c: ClientView) -> Seq<u8> {
    enc_string(c.endpoint) + enc_string(c.api_key) + enc_u64(c.models.len() as u64) + enc_strings(
        c.models,
    )
}

pub open spec fn enc_clients(cs: Seq<ClientView>) -> Seq<u8>
    decreases cs.len(),
{
    if cs.len() == 0 {
        Seq::empty()
    } else {
        enc_client(cs[0]) + enc_clients(cs.drop_first())
    }
}

pub open spec fn enc_chat(c: ChatView) -> Seq<u8> {
    enc_u64(c.id as u64) + enc_string(c.model) + enc_u64(c.messages.len() as u64) + enc_messages(
        c.messages,
    ) + enc_timestamp(c.timestamp)
}

pub open spec fn enc_chats(cs: Seq<ChatView>) -> Seq<u8>
    decreases cs.len(),
{
    if cs.len() == 0 {
        Seq::empty()
    } else {
        enc_chat(cs[0]) + enc_chats(cs.drop_first())
    }
}

pub open spec fn enc_payload(p: PayloadView) -> Seq<u8> {
    seq![FORMAT_VERSION] + enc_u64(p.api_clients.len() as u64) + enc_clients(p.api_clients)
        + enc_u64(p.chats.len() as u64) + enc_chats(p.chats)
}

/// Fits the length prefix of the layout.
pub open spec fn wf_len(n: nat) -> bool {
    n < 0x1_0000_0000_0000_0000
}

pub open spec fn wf_message(m: MessageView) -> bool {
    m.timestamp.wf() && wf_len(m.content.len())
}

pub open spec fn wf_chat(c: ChatView) -> bool {
    &&& wf_len(c.model.len())
    &&& wf_len(c.messages.len())
    &&& forall|i: int| 0 <= i < c.messages.len() ==> wf_message(#[trigger] c.messages[i])
    &&& c.timestamp.wf()
}

pub open spec fn wf_client(c: ClientView) -> bool {
    &&& wf_len(c.endpoint.len())
    &&& wf_len(c.api_key.len())
    &&& wf_len(c.models.len())
    &&& forall|i: int| 0 <= i < c.models.len() ==> wf_len((#[trigger] c.models[i]).len())
}

/// The validity every store built through this crate's constructors has:
/// timestamps are real times of day and no count overflows the length
/// prefix of the layout.
pub open spec fn wf_payload(p: PayloadView) -> bool {
    &&& wf_len(p.api_clients.len())
    &&& wf_len(p.chats.len())
    &&& forall|i: int| 0 <= i < p.api_clients.len() ==> wf_client(#[trigger] p.api_clients[i])
    &&& forall|i: int| 0 <= i < p.chats.len() ==> wf_chat(#[trigger] p.chats[i])
}

pub open spec fn dec_byte(s: Seq<u8>, i: int) -> Option<(u8, int)> {
    if 0 <= i && i + 1 <= s.len() {
        Some((s[i], i + 1))
    } else {
        None
    }
}

pub open spec fn dec_u32(s: Seq<u8>, i: int) -> Option<(u32, int)> {
    if 0 <= i && i + 4 <= s.len() {
        Some((u32_of(s.subrange(i, i + 4)), i + 4))
    } else {
        None
    }
}

pub open spec fn dec_u64(s: Seq<u8>, i: int) -> Option<(u64, int)> {
    if 0 <= i && i + 8 <= s.len() {
        Some((u64_of(s.subrange(i, i + 8)), i + 8))
    } else {
        None
    }
}

pub open spec fn dec_char(s: Seq<u8>, i: int) -> Option<(char, int)> {
    match dec_u32(s, i) {
        None => None,
        Some((u, j)) => if is_scalar(u) {
            Some((u as char, j))
        } else {
            None
        },
    }
}

pub open spec fn dec_chars(n: nat, s: Seq<u8>, i: int) -> Option<(Seq<char>, int)>
    decreases n,
{
    if n == 0 {
        Some((Seq::empty(), i))
    } else {
        match dec_char(s, i) {
            None => None,
            Some((c, j)) => match dec_chars((n - 1) as nat, s, j) {
                None => None,
                Some((t, k)) => Some((seq![c] + t, k)),
            },
        }
    }
}

pub open spec fn dec_string(s: Seq<u8>, i: int) -> Option<(Seq<char>, int)> {
    match dec_u64(s, i) {
        None => None,
        Some((n, j)) => dec_chars(n as nat, s, j),
    }
}

pub open spec fn dec_sender(s: Seq<u8>, i: int) -> Option<(Sender, int)> {
    match dec_byte(s, i) {
        None => None,
        Some((b, j)) => if b == 0 {
            Some((Sender::User, j))
        } else if b == 1 {
            Some((Sender::Model, j))
        } else {
            None
        },
    }
}

pub open spec fn dec_timestamp(s: Seq<u8>, i: int) -> Option<(Timestamp, int)> {
    if 0 <= i && i + 3 <= s.len() {
        let ts = Timestamp { hour: s[i], minute: s[i + 1], second: s[i + 2] };
        if ts.wf() {
            Some((ts, i + 3))
        } else {
            None
        }
    } else {
        None
    }
}

pub open spec fn dec_message(s: Seq<u8>, i: int) -> Option<(MessageView, int)> {
    match dec_sender(s, i) {
        None => None,
        Some((sender, j)) => match dec_string(s, j) {
            None => None,
            Some((content, k)) => match dec_timestamp(s, k) {
                None => None,
                Some((ts, e)) => Some((MessageView { sender, content, timestamp: ts }, e)),
            },
        },
    }
}

pub open spec fn dec_messages(n: nat, s: Seq<u8>, i: int) -> Option<(Seq<MessageView>, int)>
    decreases n,
{
    if n == 0 {
        Some((Seq::empty(), i))
    } else {
        match dec_message(s, i) {
            None => None,
            Some((m, j)) => match dec_messages((n - 1) as nat, s, j) {
                None => None,
                Some((ms, k)) => Some((seq![m] + ms, k)),
            },
        }
    }
}

pub open spec fn dec_strings(n: nat, s: Seq<u8>, i: int) -> Option<(Seq<Seq<char>>, int)>
    decreases n,
{
    if n == 0 {
        Some((Seq::empty(), i))
    } else {
        match dec_string(s, i) {
            None => None,
            Some((t, j)) => match dec_strings((n - 1) as nat, s, j) {
                None => None,
                Some((ts, k)) => Some((seq![t] + ts, k)),
            },
        }
    }
}

pub open spec fn dec_client(s: Seq<u8>, i: int) -> Option<(ClientView, int)> {
    match dec_string(s, i) {
        None => None,
        Some((endpoint, j)) => match dec_string(s, j) {
            None => None,
            Some((api_key, k)) => match dec_u64(s, k) {
                None => None,
                Some((n, e)) => match dec_strings(n as nat, s, e) {
                    None => None,
                    Some((models, f)) => Some((ClientView { endpoint, api_key, models }, f)),
                },
            },
        },
    }
}

pub open spec fn dec_clients(n: nat, s: Seq<u8>, i: int) -> Option<(Seq<ClientView>, int)>
    decreases n,
{
    if n == 0 {
        Some((Seq::empty(), i))
    } else {
        match dec_client(s, i) {
            None => None,
            Some((c, j)) => match dec_clients((n - 1) as nat, s, j) {
                None => None,
                Some((cs, k)) => Some((seq![c] + cs, k)),
            },
        }
    }
}

pub open spec fn dec_chat(s: Seq<u8>, i: int) -> Option<(ChatView, int)> {
    match dec_u64(s, i) {
        None => None,
        Some((id, j)) => if id <= usize::MAX as u64 {
            match dec_string(s, j) {
                None => None,
                Some((model, k)) => match dec_u64(s, k) {
                    None => None,
                    Some((n, e)) => match dec_messages(n as nat, s, e) {
                        None => None,
                        Some((messages, f)) => match dec_timestamp(s, f) {
                            None => None,
                            Some((ts, g)) => Some(
                                (
                                    ChatView {
                                        id: id as usize,
                                        model,
                                        messages,
                                        timestamp: ts,
                                    },
                                    g,
                                ),
                            ),
                        },
                    },
                },
            }
        } else {
            None
        },
    }
}

pub open spec fn dec_chats(n: nat, s: Seq<u8>, i: int) -> Option<(Seq<ChatView>, int)>
    decreases n,
{
    if n == 0 {
        Some((Seq::empty(), i))
    } else {
        match dec_chat(s, i) {
            None => None,
            Some((c, j)) => match dec_chats((n - 1) as nat, s, j) {
                None => None,
                Some((cs, k)) => Some((seq![c] + cs, k)),
            },
        }
    }
}

/// What a byte string holds, if it is a well-formed encoded store read to
/// its end.
pub open spec fn dec_payload(s: Seq<u8>) -> Option<PayloadView> {
    if s.len() >= 1 && s[0] == FORMAT_VERSION {
        match dec_u64(s, 1) {
            None => None,
            Some((nc, i)) => match dec_clients(nc as nat, s, i) {
                None => None,
                Some((cs, j)) => match dec_u64(s, j) {
                    None => None,
                    Some((nh, k)) => match dec_chats(nh as nat, s, k) {
                        None => None,
                        Some((hs, e)) => if e == s.len() {
                            Some(PayloadView { api_clients: cs, chats: hs })
                        } else {
                            None
                        },
                    },
                },
            },
        }
    } else {
        None
    }
}

proof fn lemma_subrange_split(s: Seq<u8>, i: int, a: Seq<u8>, b: Seq<u8>)
    requires
        0 <= i,
        i + a.len() + b.len() <= s.len(),
        s.subrange(i, i + a.len() + b.len()) == a + b,
    ensures
        s.subrange(i, i + a.len()) == a,
        s.subrange(i + a.len(), i + a.len() + b.len()) == b,
{
    let w = s.subrange(i, i + a.len() + b.len());
    assert forall|k: int| 0 <= k < a.len() implies s.subrange(i, i + a.len())[k] == a[k] by {
        assert(w[k] == (a + b)[k]);
    }
    assert(s.subrange(i, i + a.len()) =~= a);
    assert forall|k: int| 0 <= k < b.len() implies s.subrange(
        i + a.len(),
        i + a.len() + b.len(),
    )[k] == b[k] by {
        assert(w[a.len() + k] == (a + b)[a.len() + k]);
    }
    assert(s.subrange(i + a.len(), i + a.len() + b.len()) =~= b);
}

proof fn lemma_enc_chars_len(t: Seq<char>)
    ensures
        enc_chars(t).len() == 4 * t.len(),
    decreases t.len(),
{
    if t.len() > 0 {
        lemma_enc_chars_len(t.drop_first());
    }
}

proof fn lemma_dec_enc_u64(s: Seq<u8>, i: int, n: u64)
    requires
        0 <= i,
        i + 8 <= s.len(),
        s.subrange(i, i + 8) == enc_u64(n),
    ensures
        dec_u64(s, i) == Some((n, i + 8)),
{
    lemma_u64_round_trip(n);
}

proof fn lemma_dec_enc_char(s: Seq<u8>, i: int, c: char)
    requires
        0 <= i,
        i + 4 <= s.len(),
        s.subrange(i, i + 4) == enc_char(c),
    ensures
        dec_char(s, i) == Some((c, i + 4)),
{
    lemma_u32_round_trip(c as u32);
    char_is_scalar(c);
    char_u32_cast(c, c as u32);
}

proof fn lemma_dec_enc_chars(s: Seq<u8>, i: int, t: Seq<char>)
    requires
        0 <= i,
        i + enc_chars(t).len() <= s.len(),
        s.subrange(i, i + enc_chars(t).len()) == enc_chars(t),
    ensures
        dec_chars(t.len(), s, i) == Some((t, i + enc_chars(t).len())),
    decreases t.len(),
{
    lemma_enc_chars_len(t);
    if t.len() == 0 {
        assert(t =~= Seq::<char>::empty());
    } else {
        let rest = t.drop_first();
        lemma_enc_chars_len(rest);
        lemma_subrange_split(s, i, enc_char(t[0]), enc_chars(rest));
        lemma_dec_enc_char(s, i, t[0]);
        lemma_dec_enc_chars(s, i + 4, rest);
        assert(seq![t[0]] + rest =~= t);
    }
}

proof fn lemma_dec_enc_string(s: Seq<u8>, i: int, t: Seq<char>)
    requires
        0 <= i,
        wf_len(t.len()),
        i + enc_string(t).len() <= s.len(),
        s.subrange(i, i + enc_string(t).len()) == enc_string(t),
    ensures
        dec_string(s, i) == Some((t, i + enc_string(t).len())),
{
    lemma_enc_chars_len(t);
    lemma_subrange_split(s, i, enc_u64(t.len() as u64), enc_chars(t));
    lemma_dec_enc_u64(s, i, t.len() as u64);
    lemma_dec_enc_chars(s, i + 8, t);
}

proof fn lemma_dec_enc_sender(s: Seq<u8>, i: int, v: Sender)
    requires
        0 <= i,
        i + 1 <= s.len(),
        s.subrange(i, i + 1) == enc_sender(v),
    ensures
        dec_sender(s, i) == Some((v, i + 1)),
{
    assert(s[i] == enc_sender(v)[0]);
}

proof fn lemma_dec_enc_timestamp(s: Seq<u8>, i: int, ts: Timestamp)
    requires
        0 <= i,
        ts.wf(),
        i + 3 <= s.len(),
        s.subrange(i, i + 3) == enc_timestamp(ts),
    ensures
        dec_timestamp(s, i) == Some((ts, i + 3)),
{
    assert(s[i] == enc_timestamp(ts)[0]);
    assert(s[i + 1] == enc_timestamp(ts)[1]);
    assert(s[i + 2] == enc_timestamp(ts)[2]);
}

proof fn lemma_dec_enc_message(s: Seq<u8>, i: int, m: MessageView)
    requires
        0 <= i,
        wf_message(m),
        i + enc_message(m).len() <= s.len(),
        s.subrange(i, i + enc_message(m).len()) == enc_message(m),
    ensures
        dec_message(s, i) == Some((m, i + enc_message(m).len())),
{
    let a = enc_sender(m.sender);
    let b = enc_string(m.content);
    let c = enc_timestamp(m.timestamp);
    assert(enc_message(m) =~= a + (b + c));
    lemma_subrange_split(s, i, a, b + c);
    lemma_subrange_split(s, i + a.len(), b, c);
    lemma_dec_enc_sender(s, i, m.sender);
    lemma_dec_enc_string(s, i + a.len(), m.content);
    lemma_dec_enc_timestamp(s, i + a.len() + b.len(), m.timestamp);
}

proof fn lemma_dec_enc_messages(s: Seq<u8>, i: int, ms: Seq<MessageView>)
    requires
        0 <= i,
        forall|k: int| 0 <= k < ms.len() ==> wf_message(#[trigger] ms[k]),
        i + enc_messages(ms).len() <= s.len(),
        s.subrange(i, i + enc_messages(ms).len()) == enc_messages(ms),
    ensures
        dec_messages(ms.len(), s, i) == Some((ms, i + enc_messages(ms).len())),
    decreases ms.len(),
{
    if ms.len() == 0 {
        assert(ms =~= Seq::<MessageView>::empty());
    } else {
        let rest = ms.drop_first();
        lemma_subrange_split(s, i, enc_message(ms[0]), enc_messages(rest));
        lemma_dec_enc_message(s, i, ms[0]);
        lemma_dec_enc_messages(s, i + enc_message(ms[0]).len(), rest);
        assert(seq![ms[0]] + rest =~= ms);
    }
}

proof fn lemma_dec_enc_strings(s: Seq<u8>, i: int, ts: Seq<Seq<char>>)
    requires
        0 <= i,
        forall|k: int| 0 <= k < ts.len() ==> wf_len((#[trigger] ts[k]).len()),
        i + enc_strings(ts).len() <= s.len(),
        s.subrange(i, i + enc_strings(ts).len()) == enc_strings(ts),
    ensures
        dec_strings(ts.len(), s, i) == Some((ts, i + enc_strings(ts).len())),
    decreases ts.len(),
{
    if ts.len() == 0 {
        assert(ts =~= Seq::<Seq<char>>::empty());
    } else {
        let rest = ts.drop_first();
        lemma_subrange_split(s, i, enc_string(ts[0]), enc_strings(rest));
        lemma_dec_enc_string(s, i, ts[0]);
        lemma_dec_enc_strings(s, i + enc_string(ts[0]).len(), rest);
        assert(seq![ts[0]] + rest =~= ts);
    }
}

proof fn lemma_dec_enc_client(s: Seq<u8>, i: int, c: ClientView)
    requires
        0 <= i,
        wf_client(c),
        i + enc_client(c).len() <= s.len(),
        s.subrange(i, i + enc_client(c).len()) == enc_client(c),
    ensures
        dec_client(s, i) == Some((c, i + enc_client(c).len())),
{
    let a = enc_string(c.endpoint);
    let b = enc_string(c.api_key);
    let d = enc_u64(c.models.len() as u64);
    let e = enc_strings(c.models);
    assert(enc_client(c) =~= a + (b + (d + e)));
    lemma_subrange_split(s, i, a, b + (d + e));
    lemma_subrange_split(s, i + a.len(), b, d + e);
    lemma_subrange_split(s, i + a.len() + b.len(), d, e);
    lemma_dec_enc_string(s, i, c.endpoint);
    lemma_dec_enc_string(s, i + a.len(), c.api_key);
    lemma_dec_enc_u64(s, i + a.len() + b.len(), c.models.len() as u64);
    lemma_dec_enc_strings(s, i + a.len() + b.len() + 8, c.models);
}

proof fn lemma_dec_enc_clients(s: Seq<u8>, i: int, cs: Seq<ClientView>)
    requires
        0 <= i,
        forall|k: int| 0 <= k < cs.len() ==> wf_client(#[trigger] cs[k]),
        i + enc_clients(cs).len() <= s.len(),
        s.subrange(i, i + enc_clients(cs).len()) == enc_clients(cs),
    ensures
        dec_clients(cs.len(), s, i) == Some((cs, i + enc_clients(cs).len())),
    decreases cs.len(),
{
    if cs.len() == 0 {
        assert(cs =~= Seq::<ClientView>::empty());
    } else {
        let rest = cs.drop_first();
        lemma_subrange_split(s, i, enc_client(cs[0]), enc_clients(rest));
        lemma_dec_enc_client(s, i, cs[0]);
        lemma_dec_enc_clients(s, i + enc_client(cs[0]).len(), rest);
        assert(seq![cs[0]] + rest =~= cs);
    }
}

proof fn lemma_dec_enc_chat(s: Seq<u8>, i: int, c: ChatView)
    requires
        0 <= i,
        wf_chat(c),
        i + enc_chat(c).len() <= s.len(),
        s.subrange(i, i + enc_chat(c).len()) == enc_chat(c),
    ensures
        dec_chat(s, i) == Some((c, i + enc_chat(c).len())),
{
    let a = enc_u64(c.id as u64);
    let b = enc_string(c.model);
    let d = enc_u64(c.messages.len() as u64);
    let e = enc_messages(c.messages);
    let f = enc_timestamp(c.timestamp);
    assert(enc_chat(c) =~= a + (b + (d + (e + f))));
    lemma_subrange_split(s, i, a, b + (d + (e + f)));
    lemma_subrange_split(s, i + a.len(), b, d + (e + f));
    lemma_subrange_split(s, i + a.len() + b.len(), d, e + f);
    lemma_subrange_split(s, i + a.len() + b.len() + 8, e, f);
    lemma_dec_enc_u64(s, i, c.id as u64);
    lemma_dec_enc_string(s, i + 8, c.model);
    lemma_dec_enc_u64(s, i + 8 + b.len(), c.messages.len() as u64);
    lemma_dec_enc_messages(s, i + 8 + b.len() + 8, c.messages);
    lemma_dec_enc_timestamp(s, i + 8 + b.len() + 8 + e.len(), c.timestamp);
}

proof fn lemma_dec_enc_chats(s: Seq<u8>, i: int, cs: Seq<ChatView>)
    requires
        0 <= i,
        forall|k: int| 0 <= k < cs.len() ==> wf_chat(#[trigger] cs[k]),
        i + enc_chats(cs).len() <= s.len(),
        s.subrange(i, i + enc_chats(cs).len()) == enc_chats(cs),
    ensures
        dec_chats(cs.len(), s, i) == Some((cs, i + enc_chats(cs).len())),
    decreases cs.len(),
{
    if cs.len() == 0 {
        assert(cs =~= Seq::<ChatView>::empty());
    } else {
        let rest = cs.drop_first();
        lemma_subrange_split(s, i, enc_chat(cs[0]), enc_chats(rest));
        lemma_dec_enc_chat(s, i, cs[0]);
        lemma_dec_enc_chats(s, i + enc_chat(cs[0]).len(), rest);
        assert(seq![cs[0]] + rest =~= cs);
    }
}

/// What a store writes, it reads back: decoding an encoded payload yields
/// exactly that payload, for every valid payload.
#[verifier::rlimit(100)]
#[verifier::spinoff_prover]
pub proof fn lemma_store_round_trip(p: PayloadView)
    requires
        wf_payload(p),
    ensures
        dec_payload(enc_payload(p)) == Some(p),
{
    let s = enc_payload(p);
    let a = enc_u64(p.api_clients.len() as u64);
    let b = enc_clients(p.api_clients);
    let c = enc_u64(p.chats.len() as u64);
    let d = enc_chats(p.chats);
    assert(s =~= seq![FORMAT_VERSION] + (a + (b + (c + d))));
    assert(s[0] == FORMAT_VERSION);
    assert(s.subrange(1, s.len() as int) =~= a + (b + (c + d)));
    lemma_subrange_split(s, 1, a, b + (c + d));
    assert(s.subrange(1, 9) == a);
    lemma_subrange_split(s, 1 + a.len() as int, b, c + d);
    assert(s.subrange(9, 9 + b.len() as int) == b);
    lemma_subrange_split(s, 1 + a.len() as int + b.len(), c, d);
    assert(s.subrange(9 + b.len() as int, 9 + b.len() as int + 8) == c);
    assert(s.subrange(9 + b.len() as int + 8, s.len() as int) == d);
    lemma_dec_enc_u64(s, 1, p.api_clients.len() as u64);
    assert(dec_u64(s, 1) == Some((p.api_clients.len() as u64, 9int)));
    lemma_dec_enc_clients(s, 9, p.api_clients);
    assert(dec_clients(p.api_clients.len(), s, 9) == Some((p.api_clients, 9 + b.len() as int)));
    lemma_dec_enc_u64(s, 9 + b.len() as int, p.chats.len() as u64);
    lemma_dec_enc_chats(s, 9 + b.len() as int + 8, p.chats);
    assert(dec_chats(p.chats.len(), s, 9 + b.len() as int + 8) == Some((p.chats, s.len() as int)));
}

proof fn lemma_enc_chars_snoc(t: Seq<char>, c: char)
    ensures
        enc_chars(t.push(c)) == enc_chars(t) + enc_char(c),
    decreases t.len(),
{
    let p = t.push(c);
    if t.len() == 0 {
        assert(p[0] == c);
        assert(p.drop_first() =~= Seq::<char>::empty());
        assert(enc_chars(Seq::<char>::empty()) == Seq::<u8>::empty());
        assert(enc_chars(p) =~= enc_chars(t) + enc_char(c));
    } else {
        assert(p[0] == t[0]);
        assert(p.drop_first() =~= t.drop_first().push(c));
        lemma_enc_chars_snoc(t.drop_first(), c);
        assert(enc_chars(p) == enc_char(t[0]) + (enc_chars(t.drop_first()) + enc_char(c)));
        assert(enc_chars(t) == enc_char(t[0]) + enc_chars(t.drop_first()));
        assert(enc_chars(p) =~= enc_chars(t) + enc_char(c));
    }
}

proof fn lemma_enc_strings_snoc(ts: Seq<Seq<char>>, t: Seq<char>)
    ensures
        enc_strings(ts.push(t)) == enc_strings(ts) + enc_string(t),
    decreases ts.len(),
{
    let p = ts.push(t);
    if ts.len() == 0 {
        assert(p[0] == t);
        assert(p.drop_first() =~= Seq::<Seq<char>>::empty());
        assert(enc_strings(Seq::<Seq<char>>::empty()) == Seq::<u8>::empty());
        assert(enc_strings(p) =~= enc_strings(ts) + enc_string(t));
    } else {
        assert(p[0] == ts[0]);
        assert(p.drop_first() =~= ts.drop_first().push(t));
        lemma_enc_strings_snoc(ts.drop_first(), t);
        assert(enc_strings(p) == enc_string(ts[0]) + (enc_strings(ts.drop_first()) + enc_string(t)));
        assert(enc_strings(ts) == enc_string(ts[0]) + enc_strings(ts.drop_first()));
        assert(enc_strings(p) =~= enc_strings(ts) + enc_string(t));
    }
}

proof fn lemma_enc_messages_snoc(ms: Seq<MessageView>, m: MessageView)
    ensures
        enc_messages(ms.push(m)) == enc_messages(ms) + enc_message(m),
    decreases ms.len(),
{
    let p = ms.push(m);
    if ms.len() == 0 {
        assert(p[0] == m);
        assert(p.drop_first() =~= Seq::<MessageView>::empty());
        assert(enc_messages(Seq::<MessageView>::empty()) == Seq::<u8>::empty());
        assert(enc_messages(p) =~= enc_messages(ms) + enc_message(m));
    } else {
        assert(p[0] == ms[0]);
        assert(p.drop_first() =~= ms.drop_first().push(m));
        lemma_enc_messages_snoc(ms.drop_first(), m);
        assert(enc_messages(p) == enc_message(ms[0]) + (enc_messages(ms.drop_first()) + enc_message(m)));
        assert(enc_messages(ms) == enc_message(ms[0]) + enc_messages(ms.drop_first()));
        assert(enc_messages(p) =~= enc_messages(ms) + enc_message(m));
    }
}

proof fn lemma_enc_clients_snoc(cs: Seq<ClientView>, c: ClientView)
    ensures
        enc_clients(cs.push(c)) == enc_clients(cs) + enc_client(c),
    decreases cs.len(),
{
    let p = cs.push(c);
    if cs.len() == 0 {
        assert(p[0] == c);
        assert(p.drop_first() =~= Seq::<ClientView>::empty());
        assert(enc_clients(Seq::<ClientView>::empty()) == Seq::<u8>::empty());
        assert(enc_clients(p) =~= enc_clients(cs) + enc_client(c));
    } else {
        assert(p[0] == cs[0]);
        assert(p.drop_first() =~= cs.drop_first().push(c));
        lemma_enc_clients_snoc(cs.drop_first(), c);
        assert(enc_clients(p) == enc_client(cs[0]) + (enc_clients(cs.drop_first()) + enc_client(c)));
        assert(enc_clients(cs) == enc_client(cs[0]) + enc_clients(cs.drop_first()));
        assert(enc_clients(p) =~= enc_clients(cs) + enc_client(c));
    }
}

proof fn lemma_enc_chats_snoc(cs: Seq<ChatView>, c: ChatView)
    ensures
        enc_chats(cs.push(c)) == enc_chats(cs) + enc_chat(c),
    decreases cs.len(),
{
    let p = cs.push(c);
    if cs.len() == 0 {
        assert(p[0] == c);
        assert(p.drop_first() =~= Seq::<ChatView>::empty());
        assert(enc_chats(Seq::<ChatView>::empty()) == Seq::<u8>::empty());
        assert(enc_chats(p) =~= enc_chats(cs) + enc_chat(c));
    } else {
        assert(p[0] == cs[0]);
        assert(p.drop_first() =~= cs.drop_first().push(c));
        lemma_enc_chats_snoc(cs.drop_first(), c);
        assert(enc_chats(p) == enc_chat(cs[0]) + (enc_chats(cs.drop_first()) + enc_chat(c)));
        assert(enc_chats(cs) == enc_chat(cs[0]) + enc_chats(cs.drop_first()));
        assert(enc_chats(p) =~= enc_chats(cs) + enc_chat(c));
    }
}

fn push_u64_le(out: &mut Vec<u8>, n: u64)
    ensures
        final(out)@ == old(out)@ + enc_u64(n),
{
    out.push(#[verifier::truncate] ((n & 0xff) as u8));
    out.push(#[verifier::truncate] (((n >> 8) & 0xff) as u8));
    out.push(#[verifier::truncate] (((n >> 16) & 0xff) as u8));
    out.push(#[verifier::truncate] (((n >> 24) & 0xff) as u8));
    out.push(#[verifier::truncate] (((n >> 32) & 0xff) as u8));
    out.push(#[verifier::truncate] (((n >> 40) & 0xff) as u8));
    out.push(#[verifier::truncate] (((n >> 48) & 0xff) as u8));
    out.push(#[verifier::truncate] (((n >> 56) & 0xff) as u8));
    proof {
        assert(out@ =~= old(out)@ + enc_u64(n));
    }
}

fn push_char_le(out: &mut Vec<u8>, c: char)
    ensures
        final(out)@ == old(out)@ + enc_char(c),
{
    let u: u32 = c as u32;
    out.push(#[verifier::truncate] ((u & 0xff) as u8));
    out.push(#[verifier::truncate] (((u >> 8) & 0xff) as u8));
    out.push(#[verifier::truncate] (((u >> 16) & 0xff) as u8));
    out.push(#[verifier::truncate] (((u >> 24) & 0xff) as u8));
    proof {
        assert(out@ =~= old(out)@ + enc_char(c));
    }
}

fn push_string_enc(out: &mut Vec<u8>, t: &str)
    ensures
        final(out)@ == old(out)@ + enc_string(t@),
{
    let l = t.unicode_len();
    push_u64_le(out, l as u64);
    let mut i: usize = 0;
    proof {
        assert(t@.take(0) =~= Seq::<char>::empty());
        assert(out@ =~= old(out)@ + enc_u64(t@.len() as u64) + enc_chars(t@.take(0)));
    }
    while i < l
        invariant
            i <= l,
            l == t@.len(),
            out@ == old(out)@ + enc_u64(t@.len() as u64) + enc_chars(t@.take(i as int)),
        decreases l - i,
    {
        let c = t.get_char(i);
        push_char_le(out, c);
        proof {
            lemma_enc_chars_snoc(t@.take(i as int), c);
            assert(t@.take(i + 1 as int) =~= t@.take(i as int).push(c));
            assert(out@ =~= old(out)@ + enc_u64(t@.len() as u64) + enc_chars(t@.take(i + 1 as int)));
        }
        i += 1;
    }
    proof {
        assert(t@.take(l as int) =~= t@);
        assert(out@ =~= old(out)@ + enc_string(t@));
    }
}

fn push_sender_enc(out: &mut Vec<u8>, s: Sender)
    ensures
        final(out)@ == old(out)@ + enc_sender(s),
{
    match s {
        Sender::User => out.push(0u8),
        Sender::Model => out.push(1u8),
    }
    proof {
        assert(out@ =~= old(out)@ + enc_sender(s));
    }
}

fn push_timestamp_enc(out: &mut Vec<u8>, ts: Timestamp)
    ensures
        final(out)@ == old(out)@ + enc_timestamp(ts),
{
    out.push(ts.hour);
    out.push(ts.minute);
    out.push(ts.second);
    proof {
        assert(out@ =~= old(out)@ + enc_timestamp(ts));
    }
}

fn push_message_enc(out: &mut Vec<u8>, m: &ChatMessage)
    ensures
        final(out)@ == old(out)@ + enc_message(m@),
{
    push_sender_enc(out, m.sender);
    push_string_enc(out, m.content.as_str());
    push_timestamp_enc(out, m.timestamp);
    proof {
        assert(out@ =~= old(out)@ + enc_message(m@));
    }
}

fn push_client_enc(out: &mut Vec<u8>, c: &APIClient)
    ensures
        final(out)@ == old(out)@ + enc_client(c@),
{
    let ghost mv = c@.models;
    push_string_enc(out, c.endpoint.as_str());
    push_string_enc(out, c.api_key.as_str());
    let n = c.models.len();
    push_u64_le(out, n as u64);
    let ghost head = old(out)@ + enc_string(c@.endpoint) + enc_string(c@.api_key) + enc_u64(
        mv.len() as u64,
    );
    let mut i: usize = 0;
    proof {
        assert(mv.take(0) =~= Seq::<Seq<char>>::empty());
        assert(out@ =~= head + enc_strings(mv.take(0)));
    }
    while i < n
        invariant
            i <= n,
            n == c.models@.len(),
            mv == c@.models,
            mv.len() == n,
            out@ == head + enc_strings(mv.take(i as int)),
        decreases n - i,
    {
        proof {
            assert(mv[i as int] == c.models@.map_values(|m: String| m@)[i as int]);
        }
        push_string_enc(out, c.models[i].as_str());
        proof {
            lemma_enc_strings_snoc(mv.take(i as int), mv[i as int]);
            assert(mv.take(i + 1 as int) =~= mv.take(i as int).push(mv[i as int]));
            assert(out@ =~= head + enc_strings(mv.take(i + 1 as int)));
        }
        i += 1;
    }
    proof {
        assert(mv.take(n as int) =~= mv);
        assert(out@ =~= old(out)@ + enc_client(c@));
    }
}

fn push_chat_enc(out: &mut Vec<u8>, c: &Chat)
    ensures
        final(out)@ == old(out)@ + enc_chat(c@),
{
    let ghost msgs = c@.messages;
    push_u64_le(out, c.id as u64);
    push_string_enc(out, c.model.as_str());
    let n = c.messages.len();
    push_u64_le(out, n as u64);
    let ghost head = old(out)@ + enc_u64(c@.id as u64) + enc_string(c@.model) + enc_u64(
        msgs.len() as u64,
    );
    let mut i: usize = 0;
    proof {
        assert(msgs.take(0) =~= Seq::<MessageView>::empty());
        assert(out@ =~= head + enc_messages(msgs.take(0)));
    }
    while i < n
        invariant
            i <= n,
            n == c.messages@.len(),
            msgs == c@.messages,
            msgs.len() == n,
            out@ == head + enc_messages(msgs.take(i as int)),
        decreases n - i,
    {
        proof {
            assert(msgs[i as int] == c.messages@.map_values(|m: ChatMessage| m@)[i as int]);
        }
        push_message_enc(out, &c.messages[i]);
        proof {
            lemma_enc_messages_snoc(msgs.take(i as int), msgs[i as int]);
            assert(msgs.take(i + 1 as int) =~= msgs.take(i as int).push(msgs[i as int]));
            assert(out@ =~= head + enc_messages(msgs.take(i + 1 as int)));
        }
        i += 1;
    }
    push_timestamp_enc(out, c.timestamp);
    proof {
        assert(msgs.take(n as int) =~= msgs);
        assert(out@ =~= old(out)@ + enc_chat(c@));
    }
}

/// Encodes all credential entries and chats as one binary unit.
pub fn encode_store(clients: &Vec<APIClient>, chats: &Vec<Chat>) -> (r: Vec<u8>)
    ensures
        r@ == enc_payload(
            PayloadView {
                api_clients: clients@.map_values(|c: APIClient| c@),
                chats: chats@.map_values(|c: Chat| c@),
            },
        ),
{
    let ghost cv = clients@.map_values(|c: APIClient| c@);
    let ghost hv = chats@.map_values(|c: Chat| c@);
    let mut out: Vec<u8> = Vec::new();
    out.push(FORMAT_VERSION);
    push_u64_le(&mut out, clients.len() as u64);
    let ghost head1 = seq![FORMAT_VERSION] + enc_u64(cv.len() as u64);
    let mut i: usize = 0;
    proof {
        assert(cv.take(0) =~= Seq::<ClientView>::empty());
        assert(out@ =~= head1 + enc_clients(cv.take(0)));
    }
    while i < clients.len()
        invariant
            i <= clients.len(),
            cv == clients@.map_values(|c: APIClient| c@),
            cv.len() == clients@.len(),
            out@ == head1 + enc_clients(cv.take(i as int)),
        decreases clients.len() - i,
    {
        proof {
            assert(cv[i as int] == clients@.map_values(|c: APIClient| c@)[i as int]);
        }
        push_client_enc(&mut out, &clients[i]);
        proof {
            lemma_enc_clients_snoc(cv.take(i as int), cv[i as int]);
            assert(cv.take(i + 1 as int) =~= cv.take(i as int).push(cv[i as int]));
            assert(out@ =~= head1 + enc_clients(cv.take(i + 1 as int)));
        }
        i += 1;
    }
    proof {
        assert(cv.take(clients@.len() as int) =~= cv);
    }
    push_u64_le(&mut out, chats.len() as u64);
    let ghost head2 = head1 + enc_clients(cv) + enc_u64(hv.len() as u64);
    let mut j: usize = 0;
    proof {
        assert(hv.take(0) =~= Seq::<ChatView>::empty());
        assert(out@ =~= head2 + enc_chats(hv.take(0)));
    }
    while j < chats.len()
        invariant
            j <= chats.len(),
            hv == chats@.map_values(|c: Chat| c@),
            hv.len() == chats@.len(),
            out@ == head2 + enc_chats(hv.take(j as int)),
        decreases chats.len() - j,
    {
        proof {
            assert(hv[j as int] == chats@.map_values(|c: Chat| c@)[j as int]);
        }
        push_chat_enc(&mut out, &chats[j]);
        proof {
            lemma_enc_chats_snoc(hv.take(j as int), hv[j as int]);
            assert(hv.take(j + 1 as int) =~= hv.take(j as int).push(hv[j as int]));
            assert(out@ =~= head2 + enc_chats(hv.take(j + 1 as int)));
        }
        j += 1;
    }
    proof {
        assert(hv.take(chats@.len() as int) =~= hv);
        assert(out@ =~= enc_payload(PayloadView { api_clients: cv, chats: hv }));
    }
    out
}

/// A store's bytes did not parse as a valid encoded store.
#[derive(Clone, Copy, PartialEq, Eq, Structural, Debug)]
pub struct DecodeError;

/// Relies on char::from_u32: the code point back as a character exactly
/// for Unicode scalar values, and nothing otherwise.
pub assume_specification[ char::from_u32 ](u: u32) -> (r: Option<char>)
    ensures
        r == (if is_scalar(u) {
            Some(u as char)
        } else {
            None::<char>
        }),
;

fn parse_u64(bytes: &[u8], pos: usize) -> (r: Option<(u64, usize)>)
    ensures
        (match r {
            Some((n, j)) => dec_u64(bytes@, pos as int) == Some((n, j as int)) && j <= bytes@.len(),
            None => dec_u64(bytes@, pos as int) is None,
        }),
{
    if pos <= bytes.len() && bytes.len() - pos >= 8 {
        let b0 = bytes[pos] as u64;
        let b1 = bytes[pos + 1] as u64;
        let b2 = bytes[pos + 2] as u64;
        let b3 = bytes[pos + 3] as u64;
        let b4 = bytes[pos + 4] as u64;
        let b5 = bytes[pos + 5] as u64;
        let b6 = bytes[pos + 6] as u64;
        let b7 = bytes[pos + 7] as u64;
        let n = b0 | (b1 << 8) | (b2 << 16) | (b3 << 24) | (b4 << 32) | (b5 << 40) | (b6 << 48) | (
        b7 << 56);
        proof {
            let sub = bytes@.subrange(pos as int, pos + 8);
            assert(sub[0] == bytes@[pos as int]);
            assert(sub[1] == bytes@[pos + 1]);
            assert(sub[2] == bytes@[pos + 2]);
            assert(sub[3] == bytes@[pos + 3]);
            assert(sub[4] == bytes@[pos + 4]);
            assert(sub[5] == bytes@[pos + 5]);
            assert(sub[6] == bytes@[pos + 6]);
            assert(sub[7] == bytes@[pos + 7]);
        }
        Some((n, pos + 8))
    } else {
        None
    }
}

fn parse_char(bytes: &[u8], pos: usize) -> (r: Option<(char, usize)>)
    ensures
        (match r {
            Some((c, j)) => dec_char(bytes@, pos as int) == Some((c, j as int)) && j
                <= bytes@.len(),
            None => dec_char(bytes@, pos as int) is None,
        }),
{
    if pos <= bytes.len() && bytes.len() - pos >= 4 {
        let b0 = bytes[pos] as u32;
        let b1 = bytes[pos + 1] as u32;
        let b2 = bytes[pos + 2] as u32;
        let b3 = bytes[pos + 3] as u32;
        let u = b0 | (b1 << 8) | (b2 << 16) | (b3 << 24);
        proof {
            let sub = bytes@.subrange(pos as int, pos + 4);
            assert(sub[0] == bytes@[pos as int]);
            assert(sub[1] == bytes@[pos + 1]);
            assert(sub[2] == bytes@[pos + 2]);
            assert(sub[3] == bytes@[pos + 3]);
        }
        match char::from_u32(u) {
            Some(c) => Some((c, pos + 4)),
            None => None,
        }
    } else {
        None
    }
}

fn parse_string(bytes: &[u8], pos: usize) -> (r: Option<(String, usize)>)
    ensures
        (match r {
            Some((t, j)) => dec_string(bytes@, pos as int) == Some((t@, j as int)) && j
                <= bytes@.len(),
            None => dec_string(bytes@, pos as int) is None,
        }),
{
    let (n, start) = match parse_u64(bytes, pos) {
        Some(x) => x,
        None => {
            return None;
        },
    };
    let mut out = String::new();
    let mut cur = start;
    let mut k: u64 = 0;
    proof {
        assert(out@ + Seq::<char>::empty() =~= out@);
    }
    while k < n
        invariant
            k <= n,
            cur <= bytes@.len(),
            dec_string(bytes@, pos as int) == (match dec_chars(
                (n - k) as nat,
                bytes@,
                cur as int,
            ) {
                Some((t, e)) => Some((out@ + t, e)),
                None => None::<(Seq<char>, int)>,
            }),
        decreases n - k,
    {
        match parse_char(bytes, cur) {
            Some((c, nc)) => {
                proof {
                    let g = dec_chars((n - k - 1) as nat, bytes@, nc as int);
                    if g is Some {
                        let t = g.unwrap().0;
                        assert(out@.push(c) + t =~= out@ + (seq![c] + t));
                    }
                }
                push_char(&mut out, c);
                cur = nc;
            },
            None => {
                return None;
            },
        }
        k += 1;
    }
    proof {
        assert(dec_chars(0, bytes@, cur as int) == Some((Seq::<char>::empty(), cur as int)));
        assert(out@ + Seq::<char>::empty() =~= out@);
    }
    Some((out, cur))
}

fn parse_sender(bytes: &[u8], pos: usize) -> (r: Option<(Sender, usize)>)
    ensures
        (match r {
            Some((v, j)) => dec_sender(bytes@, pos as int) == Some((v, j as int)) && j
                <= bytes@.len(),
            None => dec_sender(bytes@, pos as int) is None,
        }),
{
    if pos < bytes.len() {
        let b = bytes[pos];
        if b == 0 {
            Some((Sender::User, pos + 1))
        } else if b == 1 {
            Some((Sender::Model, pos + 1))
        } else {
            None
        }
    } else {
        None
    }
}

fn parse_timestamp(bytes: &[u8], pos: usize) -> (r: Option<(Timestamp, usize)>)
    ensures
        (match r {
            Some((v, j)) => dec_timestamp(bytes@, pos as int) == Some((v, j as int)) && j
                <= bytes@.len(),
            None => dec_timestamp(bytes@, pos as int) is None,
        }),
{
    if pos <= bytes.len() && bytes.len() - pos >= 3 {
        let hour = bytes[pos];
        let minute = bytes[pos + 1];
        let second = bytes[pos + 2];
        if hour < 24 && minute < 60 && second < 60 {
            Some((Timestamp { hour, minute, second }, pos + 3))
        } else {
            None
        }
    } else {
        None
    }
}

fn parse_message(bytes: &[u8], pos: usize) -> (r: Option<(ChatMessage, usize)>)
    ensures
        (match r {
            Some((m, j)) => dec_message(bytes@, pos as int) == Some((m@, j as int)) && j
                <= bytes@.len(),
            None => dec_message(bytes@, pos as int) is None,
        }),
{
    let (sender, p1) = match parse_sender(bytes, pos) {
        Some(x) => x,
        None => {
            return None;
        },
    };
    let (content, p2) = match parse_string(bytes, p1) {
        Some(x) => x,
        None => {
            return None;
        },
    };
    let (timestamp, p3) = match parse_timestamp(bytes, p2) {
        Some(x) => x,
        None => {
            return None;
        },
    };
    Some((ChatMessage { sender, content, timestamp }, p3))
}

#[verifier::loop_isolation(false)]
fn parse_client(bytes: &[u8], pos: usize) -> (r: Option<(APIClient, usize)>)
    ensures
        (match r {
            Some((c, j)) => dec_client(bytes@, pos as int) == Some((c@, j as int)) && j
                <= bytes@.len(),
            None => dec_client(bytes@, pos as int) is None,
        }),
{
    let (endpoint, p1) = match parse_string(bytes, pos) {
        Some(x) => x,
        None => {
            return None;
        },
    };
    let (api_key, p2) = match parse_string(bytes, p1) {
        Some(x) => x,
        None => {
            return None;
        },
    };
    let (n, start) = match parse_u64(bytes, p2) {
        Some(x) => x,
        None => {
            return None;
        },
    };
    let mut models: Vec<String> = Vec::new();
    let mut cur = start;
    let mut k: u64 = 0;
    proof {
        assert(models@.map_values(|m: String| m@) =~= Seq::<Seq<char>>::empty());
    }
    while k < n
        invariant
            k <= n,
            cur <= bytes@.len(),
            dec_strings(n as nat, bytes@, start as int) == (match dec_strings(
                (n - k) as nat,
                bytes@,
                cur as int,
            ) {
                Some((ts, e)) => Some((models@.map_values(|m: String| m@) + ts, e)),
                None => None::<(Seq<Seq<char>>, int)>,
            }),
        decreases n - k,
    {
        match parse_string(bytes, cur) {
            Some((t, nc)) => {
                proof {
                    let g = dec_strings((n - k - 1) as nat, bytes@, nc as int);
                    assert((models@.push(t)).map_values(|m: String| m@) =~= models@.map_values(
                        |m: String| m@,
                    ).push(t@));
                    if g is Some {
                        let ts = g.unwrap().0;
                        assert(models@.map_values(|m: String| m@).push(t@) + ts
                            =~= models@.map_values(|m: String| m@) + (seq![t@] + ts));
                    }
                }
                models.push(t);
                cur = nc;
            },
            None => {
                proof {
                    assert(dec_strings((n - k) as nat, bytes@, cur as int) is None);
                    assert(dec_strings(n as nat, bytes@, start as int) is None);
                    assert(dec_client(bytes@, pos as int) is None);
                }
                return None;
            },
        }
        k += 1;
    }
    proof {
        assert(dec_strings(0, bytes@, cur as int) == Some((Seq::<Seq<char>>::empty(), cur as int)));
        assert(models@.map_values(|m: String| m@) + Seq::<Seq<char>>::empty() =~= models@
            .map_values(|m: String| m@));
    }
    Some((APIClient { endpoint, api_key, models }, cur))
}

#[verifier::loop_isolation(false)]
fn parse_chat(bytes: &[u8], pos: usize) -> (r: Option<(Chat, usize)>)
    ensures
        (match r {
            Some((c, j)) => dec_chat(bytes@, pos as int) == Some((c@, j as int)) && j
                <= bytes@.len(),
            None => dec_chat(bytes@, pos as int) is None,
        }),
{
    let (id64, p1) = match parse_u64(bytes, pos) {
        Some(x) => x,
        None => {
            return None;
        },
    };
    if id64 > usize::MAX as u64 {
        return None;
    }
    let id = id64 as usize;
    let (model, p2) = match parse_string(bytes, p1) {
        Some(x) => x,
        None => {
            return None;
        },
    };
    let (n, start) = match parse_u64(bytes, p2) {
        Some(x) => x,
        None => {
            return None;
        },
    };
    let mut messages: Vec<ChatMessage> = Vec::new();
    let mut cur = start;
    let mut k: u64 = 0;
    proof {
        assert(messages@.map_values(|m: ChatMessage| m@) =~= Seq::<MessageView>::empty());
    }
    while k < n
        invariant
            k <= n,
            cur <= bytes@.len(),
            dec_messages(n as nat, bytes@, start as int) == (match dec_messages(
                (n - k) as nat,
                bytes@,
                cur as int,
            ) {
                Some((ms, e)) => Some((messages@.map_values(|m: ChatMessage| m@) + ms, e)),
                None => None::<(Seq<MessageView>, int)>,
            }),
        decreases n - k,
    {
        match parse_message(bytes, cur) {
            Some((m, nc)) => {
                proof {
                    let g = dec_messages((n - k - 1) as nat, bytes@, nc as int);
                    assert((messages@.push(m)).map_values(|x: ChatMessage| x@)
                        =~= messages@.map_values(|x: ChatMessage| x@).push(m@));
                    if g is Some {
                        let ms = g.unwrap().0;
                        assert(messages@.map_values(|x: ChatMessage| x@).push(m@) + ms
                            =~= messages@.map_values(|x: ChatMessage| x@) + (seq![m@] + ms));
                    }
                }
                messages.push(m);
                cur = nc;
            },
            None => {
                proof {
                    assert(dec_messages((n - k) as nat, bytes@, cur as int) is None);
                    assert(dec_messages(n as nat, bytes@, start as int) is None);
                    assert(dec_chat(bytes@, pos as int) is None);
                }
                return None;
            },
        }
        k += 1;
    }
    proof {
        assert(dec_messages(0, bytes@, cur as int) == Some(
            (Seq::<MessageView>::empty(), cur as int),
        ));
        assert(messages@.map_values(|m: ChatMessage| m@) + Seq::<MessageView>::empty()
            =~= messages@.map_values(|m: ChatMessage| m@));
    }
    let (timestamp, end) = match parse_timestamp(bytes, cur) {
        Some(x) => x,
        None => {
            return None;
        },
    };
    Some((Chat { id, model, messages, timestamp }, end))
}

/// Decodes one binary unit back into its credential entries and chats,
/// exactly when the bytes are a well-formed encoded store read to the end.
#[verifier::loop_isolation(false)]
pub fn decode_store(bytes: &[u8]) -> (r: Result<(Vec<APIClient>, Vec<Chat>), DecodeError>)
    ensures
        (match r {
            Ok((cs, hs)) => dec_payload(bytes@) == Some(
                PayloadView {
                    api_clients: cs@.map_values(|c: APIClient| c@),
                    chats: hs@.map_values(|c: Chat| c@),
                },
            ),
            Err(_) => dec_payload(bytes@) is None,
        }),
{
    if bytes.len() == 0 || bytes[0] != FORMAT_VERSION {
        return Err(DecodeError);
    }
    let (nc, start) = match parse_u64(bytes, 1) {
        Some(x) => x,
        None => {
            return Err(DecodeError);
        },
    };
    let mut clients: Vec<APIClient> = Vec::new();
    let mut cur = start;
    let mut k: u64 = 0;
    proof {
        assert(clients@.map_values(|c: APIClient| c@) =~= Seq::<ClientView>::empty());
    }
    while k < nc
        invariant
            k <= nc,
            cur <= bytes@.len(),
            dec_clients(nc as nat, bytes@, start as int) == (match dec_clients(
                (nc - k) as nat,
                bytes@,
                cur as int,
            ) {
                Some((cs, e)) => Some((clients@.map_values(|c: APIClient| c@) + cs, e)),
                None => None::<(Seq<ClientView>, int)>,
            }),
        decreases nc - k,
    {
        match parse_client(bytes, cur) {
            Some((c, jc)) => {
                proof {
                    let g = dec_clients((nc - k - 1) as nat, bytes@, jc as int);
                    assert((clients@.push(c)).map_values(|x: APIClient| x@)
                        =~= clients@.map_values(|x: APIClient| x@).push(c@));
                    if g is Some {
                        let cs = g.unwrap().0;
                        assert(clients@.map_values(|x: APIClient| x@).push(c@) + cs
                            =~= clients@.map_values(|x: APIClient| x@) + (seq![c@] + cs));
                    }
                }
                clients.push(c);
                cur = jc;
            },
            None => {
                proof {
                    assert(dec_clients((nc - k) as nat, bytes@, cur as int) is None);
                    assert(dec_clients(nc as nat, bytes@, start as int) is None);
                    assert(dec_payload(bytes@) is None);
                }
                return Err(DecodeError);
            },
        }
        k += 1;
    }
    proof {
        assert(dec_clients(0, bytes@, cur as int) == Some((Seq::<ClientView>::empty(), cur as int)));
        assert(clients@.map_values(|c: APIClient| c@) + Seq::<ClientView>::empty() =~= clients@
            .map_values(|c: APIClient| c@));
    }
    let (nh, hstart) = match parse_u64(bytes, cur) {
        Some(x) => x,
        None => {
            return Err(DecodeError);
        },
    };
    let mut chats: Vec<Chat> = Vec::new();
    let mut hcur = hstart;
    let mut h: u64 = 0;
    proof {
        assert(chats@.map_values(|c: Chat| c@) =~= Seq::<ChatView>::empty());
    }
    while h < nh
        invariant
            h <= nh,
            hcur <= bytes@.len(),
            dec_chats(nh as nat, bytes@, hstart as int) == (match dec_chats(
                (nh - h) as nat,
                bytes@,
                hcur as int,
            ) {
                Some((hs, e)) => Some((chats@.map_values(|c: Chat| c@) + hs, e)),
                None => None::<(Seq<ChatView>, int)>,
            }),
        decreases nh - h,
    {
        match parse_chat(bytes, hcur) {
            Some((c, jc)) => {
                proof {
                    let g = dec_chats((nh - h - 1) as nat, bytes@, jc as int);
                    assert((chats@.push(c)).map_values(|x: Chat| x@) =~= chats@.map_values(
                        |x: Chat| x@,
                    ).push(c@));
                    if g is Some {
                        let hs = g.unwrap().0;
                        assert(chats@.map_values(|x: Chat| x@).push(c@) + hs =~= chats@.map_values(
                            |x: Chat| x@,
                        ) + (seq![c@] + hs));
                    }
                }
                chats.push(c);
                hcur = jc;
            },
            None => {
                proof {
                    assert(dec_chats((nh - h) as nat, bytes@, hcur as int) is None);
                    assert(dec_chats(nh as nat, bytes@, hstart as int) is None);
                    assert(dec_payload(bytes@) is None);
                }
                return Err(DecodeError);
            },
        }
        h += 1;
    }
    proof {
        assert(dec_chats(0, bytes@, hcur as int) == Some((Seq::<ChatView>::empty(), hcur as int)));
        assert(chats@.map_values(|c: Chat| c@) + Seq::<ChatView>::empty() =~= chats@.map_values(
            |c: Chat| c@,
        ));
    }
    if hcur != bytes.len() {
        return Err(DecodeError);
    }
    Ok((clients, chats))
}

} // verus!
