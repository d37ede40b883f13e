//! The session-backed store: where flash messages live between requests.

use crate::codec::{decode_messages, enc_msgs, encode_messages, spec_decode};
use crate::message::{msg_views, Message, MessageView};
use crate::session::SessionMap;
use vstd::prelude::*;
use vstd::string::StringExecFns;

verus! {

/// Loading failed: the slot's contents could not be read back as messages.
#[derive(Debug)]
pub enum LoadError {
    GenericError(String),
}

/// Storing failed. The session map accepts every write, so this library
/// never produces it; the variant stays in the interface for callers that
/// treat storage backends uniformly.
#[derive(Debug)]
pub enum StoreError {
    GenericError(String),
}

/// A session-backed store for flash messages, addressing one slot of the
/// session map. The slot's key is fixed at construction; its view is that
/// key's characters.
#[derive(Clone)]
pub struct SessionMessageStore {
    key: String,
}

impl View for SessionMessageStore {
    type V = Seq<char>;

    closed spec fn view(&self) -> Seq<char> {
        self.key@
    }
}

/// The session map after `msgs` is stored under `key`: an empty queue
/// removes the slot, a nonempty one replaces it with the queue's encoding.
pub open spec fn spec_store(
    m: Map<Seq<char>, Seq<char>>,
    key: Seq<char>,
    msgs: Seq<MessageView>,
) -> Map<Seq<char>, Seq<char>> {
    if msgs.len() == 0 {
        m.remove(key)
    } else {
        m.insert(key, enc_msgs(msgs))
    }
}

/// What loading `key` from the session map yields: an absent slot an empty
/// queue, a decodable slot its messages, any other slot a load error
/// (`None` here).
pub open spec fn spec_load(m: Map<Seq<char>, Seq<char>>, key: Seq<char>) -> Option<
    Seq<MessageView>,
> {
    if !m.contains_key(key) {
        Some(Seq::empty())
    } else {
        spec_decode(m[key])
    }
}

impl SessionMessageStore {
    /// Builds a store that keeps flash messages under `key` in the
    /// session map. The key is taken verbatim, without validation.
    pub fn new(key: String) -> (r: SessionMessageStore)
        ensures
            r@ == key@,
    {
        SessionMessageStore { key }
    }

    /// Reads the queued flash messages out of `session`.
    ///
    /// An absent slot is an empty queue, not an error; a slot that does
    /// not decode as messages is a load error. The slot itself is left
    /// untouched: clearing it is the caller's business, through a later
    /// [`store`](Self::store) of an empty queue.
    pub fn load(&self, session: &SessionMap) -> (r: Result<Vec<Message>, LoadError>)
        requires
            session.wf(),
        ensures
            match r {
                Ok(v) => spec_load(session@, self@) == Some(msg_views(v@)),
                Err(_) => spec_load(session@, self@) is None,
            },
    {
        match session.get(&self.key) {
            None => {
                let empty: Vec<Message> = Vec::new();
                assert(msg_views(empty@) =~= Seq::<MessageView>::empty());
                Ok(empty)
            },
            Some(slot) => match decode_messages(slot) {
                Some(messages) => Ok(messages),
                None => Err(
                    LoadError::GenericError(
                        String::from_str("failed to decode flash messages from the session slot"),
                    ),
                ),
            },
        }
    }

    /// Writes the queued flash messages into `session`.
    ///
    /// An empty queue removes the slot entirely; a nonempty queue replaces
    /// the slot with the encoding of exactly these messages. The session
    /// map accepts every write, so the result is always `Ok`.
    pub fn store(&self, messages: &Vec<Message>, session: &mut SessionMap) -> (r: Result<
        (),
        StoreError,
    >)
        requires
            old(session).wf(),
        ensures
            final(session).wf(),
            final(session)@ == spec_store(old(session)@, self@, msg_views(messages@)),
            r is Ok,
    {
        if messages.len() == 0 {
            session.remove(&self.key);
        } else {
            let encoded = encode_messages(messages);
            session.insert(self.key.clone(), encoded);
        }
        Ok(())
    }
}

impl Default for SessionMessageStore {
    /// The default store keeps flash messages under the slot key `_flash`.
    fn default() -> (r: SessionMessageStore)
        ensures
            r@ == "_flash"@,
    {
        SessionMessageStore { key: String::from_str("_flash") }
    }
}

} // verus!
