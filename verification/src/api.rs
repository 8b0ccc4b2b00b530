//! Credential registry entries and the completion request builder.

use crate::chat::{Chat, ChatMessage, MessageView, Sender};
use vstd::prelude::*;

verus! {

/// The mathematical content of an `APIClient`.
pub struct ClientView {
    pub endpoint: Seq<char>,
    pub api_key: Seq<char>,
    pub models: Seq<Seq<char>>,
}

/// One credential entry: an endpoint, its key, and the model identifiers
/// offered there.
#[derive(Clone, PartialEq, Debug)]
pub struct APIClient {
    pub endpoint: String,
    pub api_key: String,
    pub models: Vec<String>,
}

impl View for APIClient {
    type V = ClientView;

    open spec fn view(&self) -> ClientView {
        ClientView {
            endpoint: self.endpoint@,
            api_key: self.api_key@,
            models: self.models@.map_values(|m: String| m@),
        }
    }
}

/// The model list joined with `,`, the export form of the `models` field.
pub open spec fn join_models(models: Seq<Seq<char>>) -> Seq<char>
    decreases models.len(),
{
    if models.len() == 0 {
        Seq::empty()
    } else if models.len() == 1 {
        models[0]
    } else {
        models[0] + seq![','] + join_models(models.drop_first())
    }
}

/// The index of the first `,` in `s`, or `s.len()` if there is none.
pub open spec fn first_comma(s: Seq<char>) -> nat
    decreases s.len(),
{
    if s.len() == 0 {
        0
    } else if s[0] == ',' {
        0
    } else {
        1 + first_comma(s.drop_first())
    }
}

/// `s` cut at every `,`; the empty string yields one empty piece.
pub open spec fn split_models(s: Seq<char>) -> Seq<Seq<char>>
    decreases s.len(),
{
    let j = first_comma(s) as int;
    if j >= s.len() {
        seq![s]
    } else {
        seq![s.take(j)] + split_models(s.skip(j + 1))
    }
}

/// Pins `first_comma` down: if nothing before `m` is a comma and `m` is one
/// (or the end), then `m` is the first comma.
proof fn lemma_first_comma_is(s: Seq<char>, m: int)
    requires
        0 <= m <= s.len(),
        forall|k: int| 0 <= k < m ==> s[k] != ',',
        m < s.len() ==> s[m] == ',',
    ensures
        first_comma(s) == m,
    decreases s.len(),
{
    if s.len() == 0 {
    } else if s[0] == ',' {
        assert(m == 0);
    } else {
        assert(m >= 1);
        let t = s.drop_first();
        assert(forall|k: int| 0 <= k < m - 1 ==> t[k] != ',');
        lemma_first_comma_is(t, m - 1);
    }
}

proof fn lemma_join_snoc(ms: Seq<Seq<char>>, m: Seq<char>)
    requires
        ms.len() >= 1,
    ensures
        join_models(ms.push(m)) == join_models(ms) + seq![','] + m,
    decreases ms.len(),
{
    let p = ms.push(m);
    if ms.len() == 1 {
        assert(p.len() == 2);
        assert(p.drop_first() =~= seq![m]);
        assert(join_models(p) == p[0] + seq![','] + join_models(p.drop_first()));
        assert(join_models(p) == ms[0] + seq![','] + m);
    } else {
        lemma_join_snoc(ms.drop_first(), m);
        assert(p.drop_first() =~= ms.drop_first().push(m));
        assert(join_models(p) == p[0] + seq![','] + join_models(p.drop_first()));
        assert(join_models(ms) + seq![','] + m =~= ms[0] + seq![','] + (join_models(
            ms.drop_first(),
        ) + seq![','] + m));
    }
}

/// Splitting undoes joining, as long as the list is non-empty and no
/// identifier contains the separator.
pub proof fn lemma_split_join_models(ms: Seq<Seq<char>>)
    requires
        ms.len() >= 1,
        forall|i: int| 0 <= i < ms.len() ==> !(#[trigger] ms[i]).contains(','),
    ensures
        split_models(join_models(ms)) == ms,
    decreases ms.len(),
{
    let s = join_models(ms);
    if ms.len() == 1 {
        assert(s == ms[0]);
        assert(forall|k: int| 0 <= k < s.len() ==> s[k] != ',');
        lemma_first_comma_is(s, s.len() as int);
        assert(split_models(s) =~= ms);
    } else {
        let rest = ms.drop_first();
        let m0 = ms[0];
        assert(s == m0 + seq![','] + join_models(rest));
        assert(forall|k: int| 0 <= k < m0.len() ==> s[k] == m0[k] && s[k] != ',');
        assert(s[m0.len() as int] == ',');
        lemma_first_comma_is(s, m0.len() as int);
        assert(s.take(m0.len() as int) =~= m0);
        assert(s.skip(m0.len() as int + 1) =~= join_models(rest));
        lemma_split_join_models(rest);
        assert(split_models(s) == seq![m0] + split_models(join_models(rest)));
        assert(seq![m0] + rest =~= ms);
    }
}

/// Which mandatory credential field was absent on import.
#[derive(Clone, Copy, PartialEq, Eq, Structural, Debug)]
pub enum CredField {
    Endpoint,
    ApiKey,
}

/// Failure to reconstruct a credential entry from its key-value form.
#[derive(Clone, Copy, PartialEq, Eq, Structural, Debug)]
pub enum ImportError {
    MissingField(CredField),
}

/// The key-value pairs as mathematical values.
pub open spec fn pairs_view(v: Seq<(String, String)>) -> Seq<(Seq<char>, Seq<char>)> {
    v.map_values(|p: (String, String)| (p.0@, p.1@))
}

/// The value under the first occurrence of `key`, if any.
pub open spec fn lookup(pairs: Seq<(Seq<char>, Seq<char>)>, key: Seq<char>) -> Option<Seq<char>>
    decreases pairs.len(),
{
    if pairs.len() == 0 {
        None
    } else if pairs[0].0 == key {
        Some(pairs[0].1)
    } else {
        lookup(pairs.drop_first(), key)
    }
}

/// The export form of a credential entry: its three named fields.
pub open spec fn export_pairs(c: ClientView) -> Seq<(Seq<char>, Seq<char>)> {
    seq![
        (("endpoint")@, c.endpoint),
        (("api_key")@, c.api_key),
        (("models")@, join_models(c.models)),
    ]
}

/// What importing a key-value form yields: the entry, or the first
/// mandatory field that is missing.
pub open spec fn import_spec(pairs: Seq<(Seq<char>, Seq<char>)>) -> Result<
    ClientView,
    ImportError,
> {
    match lookup(pairs, ("endpoint")@) {
        None => Err(ImportError::MissingField(CredField::Endpoint)),
        Some(endpoint) => match lookup(pairs, ("api_key")@) {
            None => Err(ImportError::MissingField(CredField::ApiKey)),
            Some(api_key) => Ok(
                ClientView {
                    endpoint,
                    api_key,
                    models: match lookup(pairs, ("models")@) {
                        None => Seq::empty(),
                        Some(joined) => split_models(joined),
                    },
                },
            ),
        },
    }
}

fn join_all(models: &Vec<String>) -> (r: String)
    ensures
        r@ == join_models(models@.map_values(|m: String| m@)),
{
    let ghost mv = models@.map_values(|m: String| m@);
    let mut out = String::new();
    let mut i: usize = 0;
    while i < models.len()
        invariant
            i <= models.len(),
            mv == models@.map_values(|m: String| m@),
            out@ == join_models(mv.take(i as int)),
        decreases models.len() - i,
    {
        if i > 0 {
            out.append(",");
            proof {
                reveal_strlit(",");
                assert((",")@ =~= seq![',']);
            }
        }
        out.append(models[i].as_str());
        proof {
            assert(mv.take(i + 1 as int) =~= mv.take(i as int).push(mv[i as int]));
            if i > 0 {
                lemma_join_snoc(mv.take(i as int), mv[i as int]);
            } else {
                assert(join_models(mv.take(1)) == mv.take(1)[0]);
            }
        }
        i += 1;
    }
    proof {
        assert(mv.take(models@.len() as int) =~= mv);
    }
    out
}

fn split_all(s: &str) -> (r: Vec<String>)
    ensures
        r@.map_values(|m: String| m@) == split_models(s@),
{
    let n = s.unicode_len();
    let mut r: Vec<String> = Vec::new();
    let mut start: usize = 0;
    let mut i: usize = 0;
    proof {
        assert(s@.skip(0) =~= s@);
        assert(r@.map_values(|m: String| m@) =~= Seq::<Seq<char>>::empty());
    }
    while i < n
        invariant
            start <= i <= n,
            n == s@.len(),
            forall|k: int| start <= k < i ==> s@[k] != ',',
            split_models(s@) == r@.map_values(|m: String| m@) + split_models(
                s@.skip(start as int),
            ),
        decreases n - i,
    {
        let c = s.get_char(i);
        if c == ',' {
            let piece = s.substring_char(start, i).to_owned();
            proof {
                let t = s@.skip(start as int);
                assert(forall|k: int| 0 <= k < i - start ==> t[k] != ',');
                lemma_first_comma_is(t, i - start);
                assert(t.take(i - start) =~= s@.subrange(start as int, i as int));
                assert(t.skip(i - start + 1) =~= s@.skip(i + 1 as int));
                assert((r@.push(piece)).map_values(|m: String| m@) =~= r@.map_values(
                    |m: String| m@,
                ).push(piece@));
                assert(r@.map_values(|m: String| m@) + seq![t.take(i - start)] + split_models(
                    s@.skip(i + 1 as int),
                ) =~= (r@.push(piece)).map_values(|m: String| m@) + split_models(
                    s@.skip(i + 1 as int),
                ));
            }
            r.push(piece);
            start = i + 1;
        }
        i += 1;
    }
    let last = s.substring_char(start, n).to_owned();
    proof {
        let t = s@.skip(start as int);
        assert(forall|k: int| 0 <= k < t.len() ==> t[k] != ',');
        lemma_first_comma_is(t, t.len() as int);
        assert(t =~= s@.subrange(start as int, n as int));
        assert((r@.push(last)).map_values(|m: String| m@) =~= r@.map_values(
            |m: String| m@,
        ).push(last@));
        assert(r@.map_values(|m: String| m@) + seq![t] =~= (r@.push(last)).map_values(
            |m: String| m@,
        ));
    }
    r.push(last);
    r
}

fn find_value(data: &Vec<(String, String)>, key: &String) -> (r: Option<String>)
    ensures
        (match r {
            Some(v) => lookup(pairs_view(data@), key@) == Some(v@),
            None => lookup(pairs_view(data@), key@) is None,
        }),
{
    let ghost pairs = pairs_view(data@);
    let mut i: usize = 0;
    proof {
        assert(pairs.skip(0) =~= pairs);
    }
    while i < data.len()
        invariant
            i <= data.len(),
            pairs == pairs_view(data@),
            lookup(pairs, key@) == lookup(pairs.skip(i as int), key@),
        decreases data.len() - i,
    {
        if data[i].0 == *key {
            proof {
                assert(pairs.skip(i as int)[0] == pairs[i as int]);
            }
            return Some(data[i].1.clone());
        }
        proof {
            assert(pairs.skip(i as int)[0] == pairs[i as int]);
            assert(pairs.skip(i as int).drop_first() =~= pairs.skip(i + 1 as int));
        }
        i += 1;
    }
    proof {
        assert(pairs.skip(data@.len() as int) =~= Seq::<(Seq<char>, Seq<char>)>::empty());
    }
    None
}

impl APIClient {
    /// A plain constructor; nothing is validated.
    pub fn new(endpoint: String, api_key: String, models: Vec<String>) -> (r: APIClient)
        ensures
            r@.endpoint == endpoint@,
            r@.api_key == api_key@,
            r@.models == models@.map_values(|m: String| m@),
    {
        APIClient { endpoint, api_key, models }
    }

    /// Exports the entry as key-value pairs; the model list is joined with
    /// `,`, which is lossy if an identifier itself contains a comma.
    pub fn store(&self) -> (r: Vec<(String, String)>)
        ensures
            pairs_view(r@) == export_pairs(self@),
    {
        let mut r: Vec<(String, String)> = Vec::new();
        r.push((String::from_str("endpoint"), self.endpoint.clone()));
        r.push((String::from_str("api_key"), self.api_key.clone()));
        r.push((String::from_str("models"), join_all(&self.models)));
        proof {
            assert(pairs_view(r@) =~= export_pairs(self@));
        }
        r
    }

    /// Reconstructs an entry from its key-value form. `endpoint` and
    /// `api_key` are mandatory; a missing `models` entry yields an empty
    /// model list.
    pub fn import(client_data: &Vec<(String, String)>) -> (r: Result<APIClient, ImportError>)
        ensures
            (match r {
                Ok(c) => import_spec(pairs_view(client_data@)) == Ok::<ClientView, ImportError>(
                    c@,
                ),
                Err(e) => import_spec(pairs_view(client_data@)) == Err::<ClientView, ImportError>(
                    e,
                ),
            }),
    {
        let endpoint = match find_value(client_data, &String::from_str("endpoint")) {
            Some(v) => v,
            None => {
                return Err(ImportError::MissingField(CredField::Endpoint));
            },
        };
        let api_key = match find_value(client_data, &String::from_str("api_key")) {
            Some(v) => v,
            None => {
                return Err(ImportError::MissingField(CredField::ApiKey));
            },
        };
        let models = match find_value(client_data, &String::from_str("models")) {
            Some(v) => split_all(v.as_str()),
            None => Vec::new(),
        };
        proof {
            assert(models@.map_values(|m: String| m@) =~= (match lookup(
                pairs_view(client_data@),
                ("models")@,
            ) {
                None => Seq::<Seq<char>>::empty(),
                Some(joined) => split_models(joined),
            }));
        }
        Ok(APIClient::new(endpoint, api_key, models))
    }
}

/// Export then import reconstructs the entry, for any entry with at least
/// one model identifier and no comma inside an identifier.
pub proof fn lemma_export_import_round_trip(c: ClientView)
    requires
        c.models.len() >= 1,
        forall|i: int| 0 <= i < c.models.len() ==> !(#[trigger] c.models[i]).contains(','),
    ensures
        import_spec(export_pairs(c)) == Ok::<ClientView, ImportError>(c),
{
    let pairs = export_pairs(c);
    reveal_strlit("endpoint");
    reveal_strlit("api_key");
    reveal_strlit("models");
    assert(("endpoint")@.len() == 8);
    assert(("api_key")@.len() == 7);
    assert(("models")@.len() == 6);
    assert(pairs[0].0 == ("endpoint")@);
    assert(("api_key")@ != ("endpoint")@);
    assert(("models")@ != ("endpoint")@);
    assert(("models")@ != ("api_key")@);
    assert(lookup(pairs, ("endpoint")@) == Some(c.endpoint));
    let p1 = pairs.drop_first();
    let p2 = p1.drop_first();
    assert(p1[0] == pairs[1]);
    assert(p2[0] == pairs[2]);
    assert(lookup(p1, ("api_key")@) == Some(c.api_key));
    assert(lookup(pairs, ("api_key")@) == Some(c.api_key));
    assert(lookup(p2, ("models")@) == Some(join_models(c.models)));
    assert(lookup(p1, ("models")@) == Some(join_models(c.models)));
    assert(lookup(pairs, ("models")@) == Some(join_models(c.models)));
    lemma_split_join_models(c.models);
}

/// The role under which a turn is submitted to the completion backend.
#[derive(Clone, Copy, PartialEq, Eq, Structural, Debug)]
pub enum Role {
    User,
    Assistant,
}

/// The mathematical content of a `ChatTurn`.
pub struct TurnView {
    pub role: Role,
    pub content: Seq<char>,
}

/// One role/content entry of a completion request.
#[derive(Clone, PartialEq, Debug)]
pub struct ChatTurn {
    pub role: Role,
    pub content: String,
}

impl View for ChatTurn {
    type V = TurnView;

    open spec fn view(&self) -> TurnView {
        TurnView { role: self.role, content: self.content@ }
    }
}

/// How a message's sender appears in a completion request.
pub open spec fn role_of(s: Sender) -> Role {
    match s {
        Sender::User => Role::User,
        Sender::Model => Role::Assistant,
    }
}

/// The request sequence for one completion call: the prior history in
/// order, each under its role, then the new utterance as a user turn.
pub open spec fn request_turns(history: Seq<MessageView>, message: Seq<char>) -> Seq<TurnView> {
    history.map_values(|m: MessageView| TurnView { role: role_of(m.sender), content: m.content })
        .push(TurnView { role: Role::User, content: message })
}

/// A transport, protocol, or backend failure of one completion call.
#[derive(Clone, PartialEq, Debug)]
pub struct CompletionError {
    pub detail: String,
}

/// One conversation's connection data: where to send completion requests
/// and under which model.
#[derive(Clone, PartialEq, Debug)]
pub struct Thread {
    pub endpoint: String,
    pub api_key: String,
    pub model: String,
}

impl Thread {
    /// Binds a credential entry and a model identifier for completion calls.
    pub fn new(client: &APIClient, model: &str) -> (r: Thread)
        ensures
            r.endpoint@ == client@.endpoint,
            r.api_key@ == client@.api_key,
            r.model@ == model@,
    {
        Thread {
            endpoint: client.endpoint.clone(),
            api_key: client.api_key.clone(),
            model: String::from_str(model),
        }
    }

    /// Builds the ordered role/content sequence for one completion call:
    /// the chat's history, then `message` as the final user turn.
    pub fn completion_messages(&self, message: &str, chat: &Chat) -> (r: Vec<ChatTurn>)
        ensures
            r@.map_values(|t: ChatTurn| t@) == request_turns(chat@.messages, message@),
    {
        let mut turns: Vec<ChatTurn> = Vec::new();
        let ghost hist = chat@.messages;
        let mut i: usize = 0;
        while i < chat.messages.len()
            invariant
                i <= chat.messages.len(),
                hist == chat@.messages,
                hist.len() == chat.messages@.len(),
                turns@.map_values(|t: ChatTurn| t@) == hist.take(i as int).map_values(
                    |m: MessageView| TurnView { role: role_of(m.sender), content: m.content },
                ),
            decreases chat.messages.len() - i,
        {
            let msg = &chat.messages[i];
            let role = match msg.sender {
                Sender::User => Role::User,
                Sender::Model => Role::Assistant,
            };
            let turn = ChatTurn { role, content: msg.content.clone() };
            proof {
                assert(hist[i as int] == chat.messages@.map_values(|m: ChatMessage| m@)[i as int]);
                assert(hist.take(i + 1 as int) =~= hist.take(i as int).push(hist[i as int]));
                assert(hist.take(i + 1 as int).map_values(
                    |m: MessageView| TurnView { role: role_of(m.sender), content: m.content },
                ) =~= hist.take(i as int).map_values(
                    |m: MessageView| TurnView { role: role_of(m.sender), content: m.content },
                ).push(turn@));
                assert((turns@.push(turn)).map_values(|t: ChatTurn| t@) =~= turns@.map_values(
                    |t: ChatTurn| t@,
                ).push(turn@));
            }
            turns.push(turn);
            i += 1;
        }
        let last = ChatTurn { role: Role::User, content: String::from_str(message) };
        proof {
            assert(hist.take(hist.len() as int) =~= hist);
            assert((turns@.push(last)).map_values(|t: ChatTurn| t@) =~= turns@.map_values(
                |t: ChatTurn| t@,
            ).push(last@));
        }
        turns.push(last);
        turns
    }
}

/// Turns the outcome of one completion call into the displayed answer.
/// Each element of a successful outcome is the optional content of one
/// returned choice, in order. A failure is absorbed: the caller always
/// gets text, never an error.
pub fn completion_answer(outcome: &Result<Vec<Option<String>>, CompletionError>) -> (r: String)
    ensures
        outcome matches Err(_) ==> r@ == (
        "It seems like the model is unavailable or something went wrong.")@,
        outcome matches Ok(choices) ==> r@ == (if choices@.len() > 0 && choices@[0] is Some {
            (choices@[0]->Some_0)@
        } else {
            ("No completion response found")@
        }),
{
    match outcome {
        Ok(choices) => {
            if choices.len() > 0 {
                match &choices[0] {
                    Some(c) => c.clone(),
                    None => String::from_str("No completion response found"),
                }
            } else {
                String::from_str("No completion response found")
            }
        },
        Err(_) => String::from_str(
            "It seems like the model is unavailable or something went wrong.",
        ),
    }
}

} // verus!
