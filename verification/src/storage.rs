//! The store: all credential entries and chats, with upsert-by-id for
//! chats and a binary form for persistence.

use crate::api::{APIClient, ClientView};
use crate::codec::{
    decode_store, dec_payload, enc_payload, encode_store, lemma_store_round_trip, wf_payload,
    DecodeError, PayloadView,
};
use crate::chat::{Chat, ChatView};
use vstd::prelude::*;

verus! {

/// The mathematical content of a `Storage`.
pub struct StorageView {
    pub path: Seq<char>,
    pub api_clients: Seq<ClientView>,
    pub chats: Seq<ChatView>,
}

/// The in-memory aggregate of all credential entries and chats, owning a
/// backing-file path. Reading and writing that file is the caller's part;
/// the store only produces and consumes the bytes.
#[derive(Clone, PartialEq, Debug)]
pub struct Storage {
    pub path: String,
    pub api_clients: Vec<APIClient>,
    pub chats: Vec<Chat>,
}

impl View for Storage {
    type V = StorageView;

    open spec fn view(&self) -> StorageView {
        StorageView {
            path: self.path@,
            api_clients: self.api_clients@.map_values(|c: APIClient| c@),
            chats: self.chats@.map_values(|c: Chat| c@),
        }
    }
}

/// The first index whose chat has this id, or `chats.len()` if none has.
pub open spec fn find_chat(chats: Seq<ChatView>, id: usize) -> nat
    decreases chats.len(),
{
    if chats.len() == 0 {
        0
    } else if chats[0].id == id {
        0
    } else {
        1 + find_chat(chats.drop_first(), id)
    }
}

/// Replace-in-place by id if present, else append: the store's one merge
/// policy for chats.
pub open spec fn upsert(chats: Seq<ChatView>, c: ChatView) -> Seq<ChatView> {
    let j = find_chat(chats, c.id) as int;
    if j < chats.len() {
        chats.update(j, c)
    } else {
        chats.push(c)
    }
}

/// No two chats of the sequence share an id.
pub open spec fn unique_chat_ids(chats: Seq<ChatView>) -> bool {
    forall|i: int, j: int| 0 <= i < j < chats.len() ==> chats[i].id != chats[j].id
}

pub proof fn lemma_find_chat_bounds(chats: Seq<ChatView>, id: usize)
    ensures
        find_chat(chats, id) <= chats.len(),
        forall|k: int| 0 <= k < find_chat(chats, id) ==> chats[k].id != id,
        find_chat(chats, id) < chats.len() ==> chats[find_chat(chats, id) as int].id == id,
    decreases chats.len(),
{
    if chats.len() == 0 || chats[0].id == id {
    } else {
        let t = chats.drop_first();
        lemma_find_chat_bounds(t, id);
        assert forall|k: int| 0 <= k < find_chat(chats, id) implies chats[k].id != id by {
            if k >= 1 {
                assert(t[k - 1].id != id);
            }
        }
    }
}

/// Pins `find_chat` down: if nothing before `m` has the id and `m` has it
/// (or is the end), then `m` is the first match.
pub proof fn lemma_find_chat_is(chats: Seq<ChatView>, id: usize, m: int)
    requires
        0 <= m <= chats.len(),
        forall|k: int| 0 <= k < m ==> chats[k].id != id,
        m < chats.len() ==> chats[m].id == id,
    ensures
        find_chat(chats, id) == m,
    decreases chats.len(),
{
    if chats.len() == 0 {
    } else if chats[0].id == id {
        assert(m == 0);
    } else {
        let t = chats.drop_first();
        assert(forall|k: int| 0 <= k < m - 1 ==> t[k].id != id);
        lemma_find_chat_is(t, id, m - 1);
    }
}

impl Storage {
    /// An empty store backed by `path`.
    pub fn new(path: String) -> (r: Storage)
        ensures
            r@.path == path@,
            r@.api_clients == Seq::<ClientView>::empty(),
            r@.chats == Seq::<ChatView>::empty(),
    {
        let r = Storage { path, api_clients: Vec::new(), chats: Vec::new() };
        proof {
            assert(r@.api_clients =~= Seq::<ClientView>::empty());
            assert(r@.chats =~= Seq::<ChatView>::empty());
        }
        r
    }

    /// Unconditional append of a credential entry.
    pub fn add_api_client(&mut self, client: APIClient)
        ensures
            final(self)@.api_clients == old(self)@.api_clients.push(client@),
            final(self)@.chats == old(self)@.chats,
            final(self)@.path == old(self)@.path,
    {
        self.api_clients.push(client);
        proof {
            assert(self@.api_clients =~= old(self)@.api_clients.push(client@));
        }
    }

    /// Unconditional append of a chat; id uniqueness is the caller's to
    /// keep.
    pub fn add_chat(&mut self, chat: Chat)
        ensures
            final(self)@.chats == old(self)@.chats.push(chat@),
            final(self)@.api_clients == old(self)@.api_clients,
            final(self)@.path == old(self)@.path,
    {
        self.chats.push(chat);
        proof {
            assert(self@.chats =~= old(self)@.chats.push(chat@));
        }
    }

    /// Upsert by id: replaces the first chat with this id in place, or
    /// appends if no chat has it.
    pub fn update_chat(&mut self, chat: Chat)
        ensures
            final(self)@.chats == upsert(old(self)@.chats, chat@),
            final(self)@.api_clients == old(self)@.api_clients,
            final(self)@.path == old(self)@.path,
    {
        let ghost cv = old(self)@.chats;
        let mut i: usize = 0;
        while i < self.chats.len()
            invariant
                i <= self.chats.len(),
                *self == *old(self),
                cv == self@.chats,
                cv.len() == self.chats@.len(),
                forall|k: int| 0 <= k < i ==> cv[k].id != chat@.id,
            decreases self.chats.len() - i,
        {
            proof {
                assert(cv[i as int] == self.chats@.map_values(|c: Chat| c@)[i as int]);
            }
            if self.chats[i].id == chat.id {
                proof {
                    lemma_find_chat_is(cv, chat@.id, i as int);
                }
                self.chats[i] = chat;
                proof {
                    assert(self@.chats =~= cv.update(i as int, chat@));
                }
                return ;
            }
            i += 1;
        }
        proof {
            lemma_find_chat_is(cv, chat@.id, cv.len() as int);
        }
        self.chats.push(chat);
        proof {
            assert(self@.chats =~= cv.push(chat@));
        }
    }
}

/// What is persisted of a store's content: everything but the path.
pub open spec fn payload_of(s: StorageView) -> PayloadView {
    PayloadView { api_clients: s.api_clients, chats: s.chats }
}

impl Storage {
    /// Serializes the whole store, every credential entry and every chat,
    /// as one binary unit; the caller writes the bytes to the backing file.
    pub fn save(&self) -> (r: Vec<u8>)
        ensures
            r@ == enc_payload(payload_of(self@)),
    {
        encode_store(&self.api_clients, &self.chats)
    }

    /// Replaces the entries and chats with the contents of an encoded
    /// store, leaving `path` untouched; the caller reads the bytes from
    /// the backing file. A failed load leaves the store unchanged.
    pub fn load(&mut self, bytes: &[u8]) -> (r: Result<(), DecodeError>)
        ensures
            r is Ok <==> dec_payload(bytes@) is Some,
            r is Ok ==> payload_of(final(self)@) == dec_payload(bytes@).unwrap(),
            final(self)@.path == old(self)@.path,
            r is Err ==> *final(self) == *old(self) && r == Err::<(), DecodeError>(DecodeError),
    {
        match decode_store(bytes) {
            Ok((api_clients, chats)) => {
                self.api_clients = api_clients;
                self.chats = chats;
                Ok(())
            },
            Err(e) => Err(e),
        }
    }
}

/// Round trip through persistence: the bytes `save` produces decode, as
/// `load` reads them, to exactly the entries and chats that were saved,
/// for every store whose content is valid. The path is not part of the
/// bytes.
pub proof fn lemma_save_load_round_trip(s: StorageView)
    requires
        wf_payload(payload_of(s)),
    ensures
        dec_payload(enc_payload(payload_of(s))) == Some(payload_of(s)),
{
    lemma_store_round_trip(payload_of(s));
}

/// Upserting the same chat twice is the same as doing it once, and leaves
/// exactly one chat with that id, equal to the given one, in a store whose
/// chat ids are unique.
pub proof fn lemma_upsert_idempotent(chats: Seq<ChatView>, c: ChatView)
    requires
        unique_chat_ids(chats),
    ensures
        upsert(upsert(chats, c), c) == upsert(chats, c),
        unique_chat_ids(upsert(chats, c)),
        ({
            let s1 = upsert(chats, c);
            let j = find_chat(s1, c.id) as int;
            &&& 0 <= j < s1.len()
            &&& s1[j] == c
            &&& forall|k: int| 0 <= k < s1.len() && k != j ==> (#[trigger] s1[k]).id != c.id
        }),
{
    lemma_find_chat_bounds(chats, c.id);
    let j = find_chat(chats, c.id) as int;
    let s1 = upsert(chats, c);
    if j < chats.len() {
        assert(chats[j].id == c.id);
        assert(forall|k: int| 0 <= k < s1.len() && k != j ==> s1[k] == chats[k]);
        assert forall|k: int| 0 <= k < s1.len() && k != j implies (#[trigger] s1[k]).id != c.id by {
            if k < j {
                assert(chats[k].id != c.id);
            } else {
                assert(chats[j].id == c.id);
            }
        }
        lemma_find_chat_is(s1, c.id, j);
        assert(upsert(s1, c) =~= s1);
    } else {
        assert(forall|k: int| 0 <= k < chats.len() ==> (#[trigger] chats[k]).id != c.id);
        lemma_find_chat_is(s1, c.id, chats.len() as int);
        assert(upsert(s1, c) =~= s1);
        assert(s1[chats.len() as int] == c);
    }
}

} // verus!
