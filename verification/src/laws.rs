//! The lifecycle laws: what storing and loading guarantee together.

use crate::codec::{enc_msgs, lemma_decode_encode};
use crate::message::MessageView;
use crate::store::{spec_load, spec_store};
use vstd::prelude::*;

verus! {

/// Storing then loading under the same key returns the stored messages
/// unchanged and in order; storing an empty queue leaves the slot absent
/// from the map and an empty queue to load.
pub proof fn lemma_store_then_load(
    m: Map<Seq<char>, Seq<char>>,
    key: Seq<char>,
    msgs: Seq<MessageView>,
)
    ensures
        msgs.len() > 0 ==> spec_load(spec_store(m, key, msgs), key) == Some(msgs),
        msgs.len() == 0 ==> !spec_store(m, key, msgs).contains_key(key),
        msgs.len() == 0 ==> spec_load(spec_store(m, key, msgs), key) == Some(
            Seq::<MessageView>::empty(),
        ),
{
    if msgs.len() > 0 {
        lemma_decode_encode(msgs);
    }
}

/// Storing the same messages twice in succession leaves the session map
/// exactly as storing them once does.
pub proof fn lemma_store_idempotent(
    m: Map<Seq<char>, Seq<char>>,
    key: Seq<char>,
    msgs: Seq<MessageView>,
)
    ensures
        spec_store(spec_store(m, key, msgs), key, msgs) == spec_store(m, key, msgs),
{
    if msgs.len() == 0 {
        assert(m.remove(key).remove(key) =~= m.remove(key));
    } else {
        assert(m.insert(key, enc_msgs(msgs)).insert(key, enc_msgs(msgs)) =~= m.insert(
            key,
            enc_msgs(msgs),
        ));
    }
}

/// Stores under different keys do not interfere: a store under one key
/// leaves every other key's slot, and what loads from it, unchanged.
pub proof fn lemma_distinct_keys_independent(
    m: Map<Seq<char>, Seq<char>>,
    k1: Seq<char>,
    k2: Seq<char>,
    msgs: Seq<MessageView>,
)
    requires
        k1 != k2,
    ensures
        spec_store(m, k1, msgs).contains_key(k2) == m.contains_key(k2),
        m.contains_key(k2) ==> spec_store(m, k1, msgs)[k2] == m[k2],
        spec_load(spec_store(m, k1, msgs), k2) == spec_load(m, k2),
{
}

} // verus!
