//! The records that the signer keeps in the store: nodes and their state,
//! channels, allowlists and chain trackers, each kind under a prefix of
//! its own.

use vstd::prelude::*;
use vstd::slice::slice_subrange;
use vstd::string::StringExecFns;
use crate::hexcode::{decode_bytes, encode, hex_text, hex_value, is_hex};
use crate::model::{Contents, Triple};
use crate::model::{lemma_has_key_bytes, lemma_map_of_entry, lemma_map_of_keys};
use crate::order::{key_bytes, starts_with};
use crate::order::{
    lemma_char_bytes, lemma_char_code, lemma_key_bytes_concat, lemma_key_bytes_injective, lemma_key_bytes_push,
    lemma_prefix_bytes,
};
use crate::state::{State, StateEntry, StateError, copy_bytes, has_prefix, pairs_view};
use crate::state::{
    Retired, created, first_version, found, get_result, insert_result, outcome, retired_after_delete,
    update_result, upsert_result,
};

verus! {

pub const NODE_PREFIX: &'static str = "nodes";

pub const NODE_STATE_PREFIX: &'static str = "nodestates";

pub const CHANNEL_PREFIX: &'static str = "channels";

pub const ALLOWLIST_PREFIX: &'static str = "allowlists";

pub const TRACKER_PREFIX: &'static str = "trackers";

/// The byte of the character `/`, which parts the segments of a key.
pub const SEPARATOR: u8 = 0x2f;

/// The key of the record `id` in the namespace `prefix`.
pub open spec fn key_in(prefix: Seq<char>, id: Seq<char>) -> Seq<char> {
    prefix + seq!['/'] + id
}

/// The key of the record that the node with the identifier `node_id` has
/// in the namespace `prefix`.
pub open spec fn node_key_in(prefix: Seq<char>, node_id: Seq<u8>) -> Seq<char> {
    key_in(prefix, hex_text(node_id))
}

/// The key lies in the namespace `prefix`: it is the prefix itself or
/// begins with the prefix and a `/`.
pub open spec fn in_namespace(prefix: Seq<char>, key: Seq<char>) -> bool {
    key == prefix || (prefix + seq!['/']).is_prefix_of(key)
}

/// What follows the last `/` in `key`; all of `key` where it has none.
pub open spec fn last_segment_of(key: Seq<char>) -> Seq<char>
    decreases key.len(),
{
    if key.len() == 0 || key.last() == '/' {
        Seq::empty()
    } else {
        last_segment_of(key.drop_last()).push(key.last())
    }
}

/// What follows the last separator in the bytes `b`.
spec fn bytes_after_last(b: Seq<u8>) -> Seq<u8>
    decreases b.len(),
{
    if b.len() == 0 || b.last() == SEPARATOR {
        Seq::empty()
    } else {
        bytes_after_last(b.drop_last()).push(b.last())
    }
}

/// The character `/` is the one byte of the separator.
proof fn lemma_separator_bytes()
    ensures
        key_bytes(seq!['/']) == seq![SEPARATOR],
{
    lemma_char_bytes('/');
}

/// The bytes of a key are the bytes of its prefix, the separator, and the
/// bytes of what it names.
proof fn lemma_key_in_bytes(prefix: Seq<char>, id: Seq<char>)
    ensures
        key_bytes(key_in(prefix, id)) == key_bytes(prefix) + seq![SEPARATOR] + key_bytes(id),
{
    lemma_separator_bytes();
    lemma_key_bytes_concat(prefix, seq!['/']);
    lemma_key_bytes_concat(prefix + seq!['/'], id);
}

/// Bytes without a separator, put at the end, lengthen the last segment.
proof fn lemma_bytes_after_last_append(b: Seq<u8>, e: Seq<u8>)
    requires
        forall|i: int| 0 <= i < e.len() ==> e[i] != SEPARATOR,
    ensures
        bytes_after_last(b + e) == bytes_after_last(b) + e,
    decreases e.len(),
{
    if e.len() == 0 {
        assert(b + e =~= b);
        assert(bytes_after_last(b) + e =~= bytes_after_last(b));
    } else {
        lemma_bytes_after_last_append(b, e.drop_last());
        assert((b + e).drop_last() =~= b + e.drop_last());
        assert((b + e).last() == e.last());
        assert((bytes_after_last(b) + e.drop_last()).push(e.last()) =~= bytes_after_last(b) + e);
    }
}

/// The bytes after the last separator are the bytes of the last segment.
proof fn lemma_last_segment_bytes(key: Seq<char>)
    ensures
        bytes_after_last(key_bytes(key)) == key_bytes(last_segment_of(key)),
    decreases key.len(),
{
    if key.len() == 0 {
        assert(key_bytes(key) =~= Seq::<u8>::empty());
    } else {
        let init = key.drop_last();
        let c = key.last();
        let e = key_bytes(seq![c]);
        assert(key =~= init.push(c));
        lemma_key_bytes_push(init, c);
        lemma_char_bytes(c);
        if c == '/' {
            assert((key_bytes(init) + e).last() == SEPARATOR);
            assert(key_bytes(Seq::<char>::empty()) =~= Seq::<u8>::empty());
        } else {
            lemma_char_code(c);
            assert forall|i: int| 0 <= i < e.len() implies e[i] != SEPARATOR by {
                if (c as u32) < 0x80 {
                    assert(e[i] == c as u8);
                } else {
                    assert(key_bytes(seq![c])[i] >= 0x80);
                }
            }
            lemma_bytes_after_last_append(key_bytes(init), e);
            lemma_last_segment_bytes(init);
            lemma_key_bytes_push(last_segment_of(init), c);
        }
    }
}

/// The key of the record `id` in the namespace `prefix`.
pub fn make_key(prefix: &str, id: &str) -> (key: String)
    ensures
        key@ == key_in(prefix@, id@),
{
    proof {
        reveal_strlit("/");
        assert("/"@ =~= seq!['/']);
    }
    let mut key = String::from_str(prefix);
    key.append("/");
    key.append(id);
    key
}

/// The bytes of the key of the record in the namespace `prefix` whose
/// name has the bytes `id`.
fn make_key_bytes(prefix: &str, id: &[u8], Ghost(text): Ghost<Seq<char>>) -> (key: Vec<u8>)
    requires
        id@ == key_bytes(text),
    ensures
        key@ == key_bytes(key_in(prefix@, text)),
{
    proof {
        lemma_key_in_bytes(prefix@, text);
    }
    let mut key: Vec<u8> = Vec::new();
    key.extend_from_slice(prefix.as_bytes());
    key.push(SEPARATOR);
    key.extend_from_slice(id);
    assert(key@ =~= key_bytes(prefix@) + seq![SEPARATOR] + id@);
    key
}

/// The bytes of what follows the last `/` in `key`.
pub fn last_segment(key: &str) -> (r: &[u8])
    ensures
        r@ == key_bytes(last_segment_of(key@)),
{
    let bytes = key.as_bytes();
    let mut i: usize = bytes.len();
    while i > 0 && bytes[i - 1] != SEPARATOR
        invariant
            i <= bytes@.len(),
            forall|j: int| i <= j < bytes@.len() ==> bytes@[j] != SEPARATOR,
        decreases i,
    {
        i -= 1;
    }
    proof {
        lemma_bytes_after(bytes@, i as int);
        lemma_last_segment_bytes(key@);
    }
    slice_subrange(bytes, i, bytes.len())
}

/// The last segment starts after the last separator.
proof fn lemma_bytes_after(b: Seq<u8>, i: int)
    requires
        0 <= i <= b.len(),
        i > 0 ==> b[i - 1] == SEPARATOR,
        forall|j: int| i <= j < b.len() ==> b[j] != SEPARATOR,
    ensures
        bytes_after_last(b) == b.subrange(i, b.len() as int),
    decreases b.len(),
{
    if i == b.len() {
        assert(b.subrange(i, b.len() as int) =~= Seq::<u8>::empty());
    } else {
        lemma_bytes_after(b.drop_last(), i);
        assert(b.subrange(i, b.len() as int) =~= b.drop_last().subrange(i, b.len() - 1).push(
            b.last(),
        ));
    }
}

/// Whether `key` lies in the namespace `prefix`.
pub fn is_in_namespace(prefix: &str, key: &str) -> (r: bool)
    ensures
        r == in_namespace(prefix@, key@),
{
    let p = prefix.as_bytes();
    let k = key.as_bytes();
    let ghost with_sep = p@ + seq![SEPARATOR];
    proof {
        lemma_separator_bytes();
        lemma_key_bytes_concat(prefix@, seq!['/']);
        lemma_prefix_bytes(prefix@ + seq!['/'], key@);
        if k@ == p@ {
            lemma_key_bytes_injective(key@, prefix@);
        }
    }
    if !starts_with(k, p) {
        assert(!with_sep.is_prefix_of(k@)) by {
            if with_sep.is_prefix_of(k@) {
                assert(p@ =~= k@.subrange(0, p@.len() as int));
            }
        }
        return false;
    }
    if k.len() == p.len() {
        assert(k@ =~= p@);
        return true;
    }
    if k[p.len()] == SEPARATOR {
        assert(with_sep =~= k@.subrange(0, with_sep.len() as int));
        true
    } else {
        assert(!with_sep.is_prefix_of(k@)) by {
            if with_sep.is_prefix_of(k@) {
                assert(k@.subrange(0, with_sep.len() as int)[p@.len() as int] == with_sep[p@.len() as int]);
            }
        }
        false
    }
}

/// The key of a node and the key of its state are never the same key.
pub proof fn lemma_node_keys_differ(id: Seq<char>)
    ensures
        key_in(NODE_PREFIX@, id) != key_in(NODE_STATE_PREFIX@, id),
{
    reveal_strlit("nodes");
    reveal_strlit("nodestates");
    assert(key_in(NODE_PREFIX@, id)[5] == '/');
    assert(key_in(NODE_STATE_PREFIX@, id)[5] == 't');
}

/// What the insert of a node owes: the record of the node and the record
/// of its state are created, each at its first version, unless either is
/// already there or has used up its versions.
pub open spec fn node_insert_result(
    m: Contents,
    retired: Retired,
    id: Seq<char>,
    node: Seq<u8>,
    state: Seq<u8>,
) -> Result<Contents, StateError> {
    if m.contains_key(key_in(NODE_PREFIX@, id)) || m.contains_key(key_in(NODE_STATE_PREFIX@, id)) {
        Err(StateError::AlreadyExists)
    } else if first_version(retired, key_in(NODE_PREFIX@, id)) > u64::MAX || first_version(
        retired,
        key_in(NODE_STATE_PREFIX@, id),
    ) > u64::MAX {
        Err(StateError::VersionOverflow)
    } else {
        Ok(
            created(
                created(
                    m,
                    key_in(NODE_PREFIX@, id),
                    first_version(retired, key_in(NODE_PREFIX@, id)) as u64,
                    node,
                ),
                key_in(NODE_STATE_PREFIX@, id),
                first_version(retired, key_in(NODE_STATE_PREFIX@, id)) as u64,
                state,
            ),
        )
    }
}

/// A node as the store holds it: the bytes of its identifier, its record
/// and the record of its state.
#[derive(Clone, Debug, PartialEq, Eq)]
pub struct NodeRecord {
    pub node_id: Vec<u8>,
    pub node: Vec<u8>,
    pub node_state: Vec<u8>,
}

impl View for NodeRecord {
    type V = (Seq<u8>, Seq<u8>, Seq<u8>);

    open spec fn view(&self) -> (Seq<u8>, Seq<u8>, Seq<u8>) {
        (self.node_id@, self.node@, self.node_state@)
    }
}

/// The model of a list of nodes.
pub open spec fn nodes_view(v: Seq<NodeRecord>) -> Seq<(Seq<u8>, Seq<u8>, Seq<u8>)> {
    v.map_values(|n: NodeRecord| n@)
}

/// The model of a list of channels: for each the bytes of its identifier
/// and its record.
pub open spec fn channels_view(v: Seq<(Vec<u8>, Vec<u8>)>) -> Seq<(Seq<u8>, Seq<u8>)> {
    v.map_values(|c: (Vec<u8>, Vec<u8>)| (c.0@, c.1@))
}

/// How a listing of nodes ended.
pub open spec fn nodes_outcome(r: Result<Vec<NodeRecord>, StateError>) -> Result<
    Seq<(Seq<u8>, Seq<u8>, Seq<u8>)>,
    StateError,
> {
    match r {
        Ok(list) => Ok(nodes_view(list@)),
        Err(e) => Err(e),
    }
}

/// How a listing of channels ended.
pub open spec fn channels_outcome(r: Result<Vec<(Vec<u8>, Vec<u8>)>, StateError>) -> Result<
    Seq<(Seq<u8>, Seq<u8>)>,
    StateError,
> {
    match r {
        Ok(list) => Ok(channels_view(list@)),
        Err(e) => Err(e),
    }
}

/// The node with the name `id`: `NotFound` where the store lacks its
/// record or the record of its state, `DecodeError` where `id` is not
/// hexadecimal.
pub open spec fn node_of(m: Contents, id: Seq<char>) -> Result<(Seq<u8>, Seq<u8>, Seq<u8>), StateError> {
    if !m.contains_key(key_in(NODE_PREFIX@, id)) || !m.contains_key(key_in(NODE_STATE_PREFIX@, id)) {
        Err(StateError::NotFound)
    } else if !is_hex(id) {
        Err(StateError::DecodeError)
    } else {
        Ok((hex_value(id), m[key_in(NODE_PREFIX@, id)].1, m[key_in(NODE_STATE_PREFIX@, id)].1))
    }
}

/// The nodes named by the first `n` keys of the snapshot: each key in the
/// namespace of nodes names, by its last segment, a node that is looked up
/// in the store `m`. The first node that cannot be had decides the error.
pub open spec fn nodes_in(snap: Seq<Triple>, m: Contents, n: nat) -> Result<
    Seq<(Seq<u8>, Seq<u8>, Seq<u8>)>,
    StateError,
>
    decreases n,
{
    if n == 0 {
        Ok(Seq::empty())
    } else {
        match nodes_in(snap, m, (n - 1) as nat) {
            Err(e) => Err(e),
            Ok(listed) => {
                let key = snap[n - 1].0;
                if !in_namespace(NODE_PREFIX@, key) {
                    Ok(listed)
                } else {
                    match node_of(m, last_segment_of(key)) {
                        Ok(node) => Ok(listed.push(node)),
                        Err(e) => Err(e),
                    }
                }
            },
        }
    }
}

/// The channels that the records stand for: each key names, by its last
/// segment in hexadecimal, the channel whose record it holds. The first
/// key that is not hexadecimal there gives `DecodeError`.
pub open spec fn channels_in(records: Seq<Triple>) -> Result<Seq<(Seq<u8>, Seq<u8>)>, StateError>
    decreases records.len(),
{
    if records.len() == 0 {
        Ok(Seq::empty())
    } else {
        match channels_in(records.drop_last()) {
            Err(e) => Err(e),
            Ok(listed) => {
                let id = last_segment_of(records.last().0);
                if is_hex(id) {
                    Ok(listed.push((hex_value(id), records.last().2)))
                } else {
                    Err(StateError::DecodeError)
                }
            },
        }
    }
}

impl State {
    /// Creates the record of a node and the record of its state, each at
    /// its first version. Where either is already there or has used up its
    /// versions, nothing is created.
    pub fn insert_node(&mut self, key: &str, node_entry: Vec<u8>, node_state_entry: Vec<u8>) -> (r:
        Result<(), StateError>)
        ensures
            outcome(r, final(self)@) == node_insert_result(
                old(self)@,
                old(self).retired(),
                key@,
                node_entry@,
                node_state_entry@,
            ),
            final(self).retired() == old(self).retired(),
            r is Err ==> *final(self) == *old(self),
    {
        let node_key = make_key(NODE_PREFIX, key);
        let state_key = make_key(NODE_STATE_PREFIX, key);
        if self.contains_key(node_key.as_str()) || self.contains_key(state_key.as_str()) {
            return Err(StateError::AlreadyExists);
        }
        match self.next_version(node_key.as_str()) {
            Ok(_) => {},
            Err(e) => {
                return Err(e);
            },
        }
        match self.next_version(state_key.as_str()) {
            Ok(_) => {},
            Err(e) => {
                return Err(e);
            },
        }
        proof {
            lemma_node_keys_differ(key@);
        }
        match self.insert_only(node_key.as_str(), node_entry) {
            Ok(_) => {},
            Err(e) => {
                return Err(e);
            },
        }
        self.insert_only(state_key.as_str(), node_state_entry)
    }

    /// Replaces the record of a node's state and counts its version up.
    pub fn update_node(&mut self, key: &str, node_state: Vec<u8>) -> (r: Result<(), StateError>)
        ensures
            outcome(r, final(self)@) == update_result(
                old(self)@,
                key_in(NODE_STATE_PREFIX@, key@),
                node_state@,
            ),
            final(self).retired() == old(self).retired(),
            r is Err ==> *final(self) == *old(self),
    {
        let state_key = make_key(NODE_STATE_PREFIX, key);
        self.update(state_key.as_str(), node_state)
    }

    /// Removes the record of a node and the record of its state, and
    /// remembers the versions they had. What is not there is not missed.
    pub fn delete_node(&mut self, key: &str)
        ensures
            final(self)@ == old(self)@.remove(key_in(NODE_PREFIX@, key@)).remove(
                key_in(NODE_STATE_PREFIX@, key@),
            ),
            final(self).retired() == retired_after_delete(
                old(self)@.remove(key_in(NODE_PREFIX@, key@)),
                retired_after_delete(old(self)@, old(self).retired(), key_in(NODE_PREFIX@, key@)),
                key_in(NODE_STATE_PREFIX@, key@),
            ),
    {
        let node_key = make_key(NODE_PREFIX, key);
        let state_key = make_key(NODE_STATE_PREFIX, key);
        self.delete(node_key.as_str());
        self.delete(state_key.as_str());
    }

    /// Creates the record of a channel at its first version. A channel
    /// that is already there is refused.
    pub fn insert_channel(&mut self, key: &str, channel_entry: Vec<u8>) -> (r: Result<(), StateError>)
        ensures
            outcome(r, final(self)@) == insert_result(
                old(self)@,
                old(self).retired(),
                key_in(CHANNEL_PREFIX@, key@),
                channel_entry@,
            ),
            final(self).retired() == old(self).retired(),
            r is Err ==> *final(self) == *old(self),
    {
        let channel_key = make_key(CHANNEL_PREFIX, key);
        self.insert_only(channel_key.as_str(), channel_entry)
    }

    /// Replaces the record of a channel and counts its version up.
    pub fn update_channel(&mut self, key: &str, channel_entry: Vec<u8>) -> (r: Result<(), StateError>)
        ensures
            outcome(r, final(self)@) == update_result(
                old(self)@,
                key_in(CHANNEL_PREFIX@, key@),
                channel_entry@,
            ),
            final(self).retired() == old(self).retired(),
            r is Err ==> *final(self) == *old(self),
    {
        let channel_key = make_key(CHANNEL_PREFIX, key);
        self.update(channel_key.as_str(), channel_entry)
    }

    /// The record of a channel, or `NotFound`.
    pub fn get_channel(&self, key: &str) -> (r: Result<&StateEntry, StateError>)
        ensures
            found(r) == get_result(self@, key_in(CHANNEL_PREFIX@, key@)),
    {
        let channel_key = make_key(CHANNEL_PREFIX, key);
        self.get(channel_key.as_str())
    }

    /// Creates the record of the chain tracker of the node `node_id` at
    /// its first version. A tracker that is already there is refused.
    pub fn new_chain_tracker(&mut self, node_id: &[u8], tracker: Vec<u8>) -> (r: Result<(), StateError>)
        ensures
            outcome(r, final(self)@) == insert_result(
                old(self)@,
                old(self).retired(),
                node_key_in(TRACKER_PREFIX@, node_id@),
                tracker@,
            ),
            final(self).retired() == old(self).retired(),
            r is Err ==> *final(self) == *old(self),
    {
        let id = encode(node_id);
        let key = make_key(TRACKER_PREFIX, id.as_str());
        self.insert_only(key.as_str(), tracker)
    }

    /// Replaces the record of the chain tracker of the node `node_id` and
    /// counts its version up.
    pub fn update_tracker(&mut self, node_id: &[u8], tracker: Vec<u8>) -> (r: Result<(), StateError>)
        ensures
            outcome(r, final(self)@) == update_result(
                old(self)@,
                node_key_in(TRACKER_PREFIX@, node_id@),
                tracker@,
            ),
            final(self).retired() == old(self).retired(),
            r is Err ==> *final(self) == *old(self),
    {
        let id = encode(node_id);
        let key = make_key(TRACKER_PREFIX, id.as_str());
        self.update(key.as_str(), tracker)
    }

    /// The record of the chain tracker of the node `node_id`, or
    /// `NotFound`.
    pub fn get_tracker(&self, node_id: &[u8]) -> (r: Result<&StateEntry, StateError>)
        ensures
            found(r) == get_result(self@, node_key_in(TRACKER_PREFIX@, node_id@)),
    {
        let id = encode(node_id);
        let key = make_key(TRACKER_PREFIX, id.as_str());
        self.get(key.as_str())
    }

    /// Sets the allowlist of the node `node_id`: created at its first
    /// version where there is none, else replaced with the version counted
    /// up.
    pub fn update_node_allowlist(&mut self, node_id: &[u8], allowlist: Vec<u8>) -> (r: Result<
        (),
        StateError,
    >)
        ensures
            outcome(r, final(self)@) == upsert_result(
                old(self)@,
                old(self).retired(),
                node_key_in(ALLOWLIST_PREFIX@, node_id@),
                allowlist@,
            ),
            final(self).retired() == old(self).retired(),
            r is Err ==> *final(self) == *old(self),
    {
        let id = encode(node_id);
        let key = make_key(ALLOWLIST_PREFIX, id.as_str());
        self.upsert(key.as_str(), allowlist)
    }

    /// The allowlist of the node `node_id`, or `NotFound`.
    pub fn get_node_allowlist(&self, node_id: &[u8]) -> (r: Result<&StateEntry, StateError>)
        ensures
            found(r) == get_result(self@, node_key_in(ALLOWLIST_PREFIX@, node_id@)),
    {
        let id = encode(node_id);
        let key = make_key(ALLOWLIST_PREFIX, id.as_str());
        self.get(key.as_str())
    }

    /// The channels of the node `node_id`: the records whose key begins
    /// with the channel prefix and the node's identifier in hexadecimal,
    /// in the order of their keys, each with the bytes that the last
    /// segment of its key stands for.
    pub fn get_node_channels(&self, node_id: &[u8]) -> (r: Result<Vec<(Vec<u8>, Vec<u8>)>, StateError>)
        ensures
            channels_outcome(r) == channels_in(
                self.snapshot().filter(has_prefix(node_key_in(CHANNEL_PREFIX@, node_id@))),
            ),
    {
        let id = encode(node_id);
        let prefix = make_key(CHANNEL_PREFIX, id.as_str());
        let listed = self.list_by_prefix(prefix.as_str());
        let ghost records = pairs_view(listed@);
        let mut res: Vec<(Vec<u8>, Vec<u8>)> = Vec::new();
        let n = listed.len();
        let mut i: usize = 0;
        assert(records.take(0) =~= Seq::<Triple>::empty());
        assert(channels_view(res@) =~= Seq::<(Seq<u8>, Seq<u8>)>::empty());
        while i < n
            invariant
                i <= n,
                n == listed@.len(),
                records == pairs_view(listed@),
                records == self.snapshot().filter(has_prefix(node_key_in(CHANNEL_PREFIX@, node_id@))),
                channels_in(records.take(i as int)) == Ok::<Seq<(Seq<u8>, Seq<u8>)>, StateError>(
                    channels_view(res@),
                ),
            decreases n - i,
        {
            let key = &listed[i].0;
            let entry = &listed[i].1;
            proof {
                assert(records.take(i + 1).drop_last() =~= records.take(i as int));
                assert(records.take(i + 1).last() == records[i as int]);
                lemma_channels_in_err(records, i + 1);
            }
            match decode_bytes(last_segment(key.as_str()), Ghost(last_segment_of(key@))) {
                Some(channel) => {
                    let ghost before = res@;
                    res.push((channel, copy_bytes(&entry.value)));
                    assert(channels_view(res@) =~= channels_view(before).push(
                        (channel@, entry.value@),
                    ));
                },
                None => {
                    return Err(StateError::DecodeError);
                },
            }
            i += 1;
        }
        assert(records.take(n as int) =~= records);
        Ok(res)
    }

    /// The node whose name has the bytes `id`.
    fn node_by_name(&self, id: &[u8], Ghost(name): Ghost<Seq<char>>) -> (r: Result<NodeRecord, StateError>)
        requires
            id@ == key_bytes(name),
        ensures
            match r {
                Ok(node) => Ok::<(Seq<u8>, Seq<u8>, Seq<u8>), StateError>(node@),
                Err(e) => Err(e),
            } == node_of(self@, name),
    {
        let node_key = make_key_bytes(NODE_PREFIX, id, Ghost(name));
        let state_key = make_key_bytes(NODE_STATE_PREFIX, id, Ghost(name));
        proof {
            use_type_invariant(self);
            lemma_map_of_keys(self.snapshot());
            lemma_has_key_bytes(self.snapshot(), key_in(NODE_PREFIX@, name));
            lemma_has_key_bytes(self.snapshot(), key_in(NODE_STATE_PREFIX@, name));
        }
        let (node_found, node_pos) = self.find(node_key.as_slice());
        if !node_found {
            return Err(StateError::NotFound);
        }
        let (state_found, state_pos) = self.find(state_key.as_slice());
        if !state_found {
            return Err(StateError::NotFound);
        }
        proof {
            lemma_key_bytes_injective(self.snapshot()[node_pos as int].0, key_in(NODE_PREFIX@, name));
            lemma_key_bytes_injective(
                self.snapshot()[state_pos as int].0,
                key_in(NODE_STATE_PREFIX@, name),
            );
            lemma_map_of_entry(self.snapshot(), node_pos as int);
            lemma_map_of_entry(self.snapshot(), state_pos as int);
        }
        match decode_bytes(id, Ghost(name)) {
            Some(node_id) => Ok(
                NodeRecord {
                    node_id,
                    node: copy_bytes(&self.entry_at(node_pos).value),
                    node_state: copy_bytes(&self.entry_at(state_pos).value),
                },
            ),
            None => Err(StateError::DecodeError),
        }
    }

    /// The nodes of the store, in the order of their keys: each key in the
    /// namespace of nodes names a node by its last segment; the node's
    /// record and the record of its state are looked up under that name,
    /// and the name in hexadecimal gives the node's identifier.
    pub fn get_nodes(&self) -> (r: Result<Vec<NodeRecord>, StateError>)
        ensures
            nodes_outcome(r) == nodes_in(self.snapshot(), self@, self.snapshot().len()),
    {
        let mut res: Vec<NodeRecord> = Vec::new();
        let n = self.len();
        let mut i: usize = 0;
        assert(nodes_view(res@) =~= Seq::<(Seq<u8>, Seq<u8>, Seq<u8>)>::empty());
        while i < n
            invariant
                i <= n,
                n == self.snapshot().len(),
                nodes_in(self.snapshot(), self@, i as nat) == Ok::<
                    Seq<(Seq<u8>, Seq<u8>, Seq<u8>)>,
                    StateError,
                >(nodes_view(res@)),
            decreases n - i,
        {
            let key = self.key_at(i).as_str();
            proof {
                lemma_nodes_in_err(self.snapshot(), self@, (i + 1) as nat, n as nat);
            }
            if is_in_namespace(NODE_PREFIX, key) {
                match self.node_by_name(last_segment(key), Ghost(last_segment_of(key@))) {
                    Ok(node) => {
                        let ghost before = res@;
                        let ghost model = node@;
                        res.push(node);
                        assert(nodes_view(res@) =~= nodes_view(before).push(model));
                    },
                    Err(e) => {
                        return Err(e);
                    },
                }
            }
            i += 1;
        }
        Ok(res)
    }
}

/// Once a node cannot be had, the listing of any longer part of the
/// snapshot fails in the same way.
proof fn lemma_nodes_in_err(snap: Seq<Triple>, m: Contents, k: nat, n: nat)
    requires
        k <= n,
    ensures
        nodes_in(snap, m, k) is Err ==> nodes_in(snap, m, n) == nodes_in(snap, m, k),
    decreases n,
{
    if k < n {
        lemma_nodes_in_err(snap, m, k, (n - 1) as nat);
    }
}

/// Once a key is not hexadecimal, the listing of any longer part of the
/// records fails.
proof fn lemma_channels_in_err(records: Seq<Triple>, k: int)
    requires
        0 <= k <= records.len(),
    ensures
        channels_in(records.take(k)) is Err ==> channels_in(records) == channels_in(records.take(k)),
    decreases records.len(),
{
    if k < records.len() {
        assert(records.drop_last().take(k) =~= records.take(k));
        lemma_channels_in_err(records.drop_last(), k);
    } else {
        assert(records.take(k) =~= records);
    }
}

/// A node that was inserted under the hexadecimal text of its identifier
/// is found under that text, with its identifier and its two records.
pub proof fn lemma_inserted_node_is_found(
    m: Contents,
    retired: Retired,
    node_id: Seq<u8>,
    node: Seq<u8>,
    state: Seq<u8>,
)
    requires
        node_insert_result(m, retired, hex_text(node_id), node, state) is Ok,
    ensures
        node_of(node_insert_result(m, retired, hex_text(node_id), node, state)->Ok_0, hex_text(node_id))
            == Ok::<(Seq<u8>, Seq<u8>, Seq<u8>), StateError>((node_id, node, state)),
{
    crate::hexcode::lemma_hex_round_trip(node_id);
    lemma_node_keys_differ(hex_text(node_id));
}

} // verus!
