//! The versioned store: a mapping from key to version and value, with the
//! version of a key counting its updates. The store remembers the version
//! at which a key was deleted, so that a key that is created again goes on
//! from there and never gets a version it has had.

use vstd::prelude::*;
use vstd::string::StringExecFns;
use crate::model::{Contents, Triple, has_key_bytes, map_of, sorted};
use crate::model::{
    lemma_has_key_bytes, lemma_insert, lemma_map_of_entry, lemma_map_of_keys, lemma_remove,
    lemma_sorted_after, lemma_sorted_before, lemma_update,
};
use crate::order::{KeyOrder, bytes_lt, compare_bytes, key_bytes, starts_with, lemma_prefix_bytes};
use crate::order::{lemma_bytes_lt_irreflexive, lemma_key_bytes_injective};

verus! {

/// Why an operation on the store was refused.
#[derive(Clone, Copy, Debug, PartialEq, Eq, Structural)]
pub enum StateError {
    /// The key is already in the store and may be inserted only once.
    AlreadyExists,
    /// The key is not in the store.
    NotFound,
    /// The key's version is the largest there is and cannot count further.
    VersionOverflow,
    /// A key or a stored value does not have the expected shape.
    DecodeError,
}

/// Version and value held under one key.
#[derive(Clone, Debug, PartialEq, Eq)]
pub struct StateEntry {
    pub version: u64,
    pub value: Vec<u8>,
}

impl View for StateEntry {
    type V = (u64, Seq<u8>);

    open spec fn view(&self) -> (u64, Seq<u8>) {
        (self.version, self.value@)
    }
}

#[derive(Debug, PartialEq, Eq)]
struct Slot {
    key: String,
    entry: StateEntry,
}

/// A copy of `v`.
pub(crate) fn copy_bytes(v: &Vec<u8>) -> (r: Vec<u8>)
    ensures
        r@ == v@,
{
    v.clone()
}

/// The versions that deleted keys had: for each key that was ever
/// deleted, the greatest version it had when it was deleted.
pub type Retired = Map<Seq<char>, u64>;

/// The version at which `key` is created: 0 for a key that was never
/// deleted, else one more than the greatest version it had.
pub open spec fn first_version(retired: Retired, key: Seq<char>) -> int {
    if retired.contains_key(key) {
        retired[key] + 1
    } else {
        0
    }
}

/// What a store holds after `key` was created with `value` at `version`.
pub open spec fn created(m: Contents, key: Seq<char>, version: u64, value: Seq<u8>) -> Contents {
    m.insert(key, (version, value))
}

/// The versions of deleted keys after `key` was deleted at `version`: the
/// greater of that and what was remembered for it.
pub open spec fn retire_one(retired: Retired, key: Seq<char>, version: u64) -> Retired {
    retired.insert(
        key,
        if retired.contains_key(key) && retired[key] > version {
            retired[key]
        } else {
            version
        },
    )
}

/// The versions of deleted keys after `key` was deleted from a store that
/// held `m`.
pub open spec fn retired_after_delete(m: Contents, retired: Retired, key: Seq<char>) -> Retired {
    if m.contains_key(key) {
        retire_one(retired, key, m[key].0)
    } else {
        retired
    }
}

/// The versions of deleted keys after every key of a store that held `m`
/// was deleted.
pub open spec fn retired_after_clear(m: Contents, retired: Retired) -> Retired {
    Map::new(
        |k: Seq<char>| retired.contains_key(k) || m.contains_key(k),
        |k: Seq<char>| retired_after_delete(m, retired, k)[k],
    )
}

/// The versions that the records of a list of deleted keys remember.
pub open spec fn versions_of(m: Contents) -> Retired {
    Map::new(|k: Seq<char>| m.contains_key(k), |k: Seq<char>| m[k].0)
}

/// What a store holds after `key` was updated with `value`: the key one
/// version further.
pub open spec fn updated(m: Contents, key: Seq<char>, value: Seq<u8>) -> Contents {
    m.insert(key, ((m[key].0 + 1) as u64, value))
}

/// What an insert owes: the key is created at its first version, unless
/// it is already there or its versions are used up.
pub open spec fn insert_result(m: Contents, retired: Retired, key: Seq<char>, value: Seq<u8>) -> Result<
    Contents,
    StateError,
> {
    if m.contains_key(key) {
        Err(StateError::AlreadyExists)
    } else if first_version(retired, key) > u64::MAX {
        Err(StateError::VersionOverflow)
    } else {
        Ok(created(m, key, first_version(retired, key) as u64, value))
    }
}

/// What an update owes: the key is updated, unless it is not there or its
/// version is the last there is.
pub open spec fn update_result(m: Contents, key: Seq<char>, value: Seq<u8>) -> Result<Contents, StateError> {
    if !m.contains_key(key) {
        Err(StateError::NotFound)
    } else if m[key].0 == u64::MAX {
        Err(StateError::VersionOverflow)
    } else {
        Ok(updated(m, key, value))
    }
}

/// What an upsert owes: the key is created where it is not there, and
/// updated where it is.
pub open spec fn upsert_result(m: Contents, retired: Retired, key: Seq<char>, value: Seq<u8>) -> Result<
    Contents,
    StateError,
> {
    if !m.contains_key(key) {
        insert_result(m, retired, key, value)
    } else {
        update_result(m, key, value)
    }
}

/// What a lookup owes: the entry under `key`, or `NotFound`.
pub open spec fn get_result(m: Contents, key: Seq<char>) -> Result<(u64, Seq<u8>), StateError> {
    if m.contains_key(key) {
        Ok(m[key])
    } else {
        Err(StateError::NotFound)
    }
}

/// How a lookup ended.
pub open spec fn found(r: Result<&StateEntry, StateError>) -> Result<(u64, Seq<u8>), StateError> {
    match r {
        Ok(e) => Ok(e@),
        Err(e) => Err(e),
    }
}

/// How an operation ended: with what the store then holds, or with the
/// reason why it was refused.
pub open spec fn outcome(r: Result<(), StateError>, after: Contents) -> Result<Contents, StateError> {
    match r {
        Ok(_) => Ok(after),
        Err(e) => Err(e),
    }
}

/// The records whose key begins with `prefix`.
pub open spec fn has_prefix(prefix: Seq<char>) -> spec_fn(Triple) -> bool {
    |t: Triple| prefix.is_prefix_of(t.0)
}

/// The model of a list of keys with their entries.
pub open spec fn pairs_view(v: Seq<(String, StateEntry)>) -> Seq<Triple> {
    v.map_values(|p: (String, StateEntry)| (p.0@, p.1.version, p.1.value@))
}

/// The records that a sequence of slots stands for.
spec fn triples(slots: Seq<Slot>) -> Seq<Triple> {
    Seq::new(slots.len(), |i: int| (slots[i].key@, slots[i].entry.version, slots[i].entry.value@))
}

/// Looks in a sorted list for the key with the bytes `key`: whether it is
/// there, and the place where it is or where it would go.
fn search(slots: &Vec<Slot>, key: &[u8]) -> (r: (bool, usize))
    requires
        sorted(triples(slots@)),
    ensures
        r.1 <= triples(slots@).len(),
        r.0 ==> r.1 < triples(slots@).len() && key_bytes(triples(slots@)[r.1 as int].0) == key@,
        r.0 <==> has_key_bytes(triples(slots@), key@),
        forall|i: int| 0 <= i < r.1 ==> bytes_lt(key_bytes((#[trigger] triples(slots@)[i]).0), key@),
        forall|i: int|
            r.1 <= i < triples(slots@).len() && !(r.0 && i == r.1) ==> bytes_lt(
                key@,
                key_bytes((#[trigger] triples(slots@)[i]).0),
            ),
{
    let ghost snap = triples(slots@);
    let mut lo: usize = 0;
    let mut hi: usize = slots.len();
    while lo < hi
        invariant
            snap == triples(slots@),
            sorted(snap),
            lo <= hi <= snap.len(),
            snap.len() == slots@.len(),
            forall|i: int| 0 <= i < lo ==> bytes_lt(key_bytes((#[trigger] snap[i]).0), key@),
            forall|i: int| hi <= i < snap.len() ==> bytes_lt(key@, key_bytes((#[trigger] snap[i]).0)),
        decreases hi - lo,
    {
        let mid = lo + (hi - lo) / 2;
        let probe = slots[mid].key.as_str().as_bytes();
        assert(probe@ == key_bytes(snap[mid as int].0));
        match compare_bytes(probe, key) {
            KeyOrder::Less => {
                assert forall|i: int| 0 <= i < mid + 1 implies bytes_lt(
                    key_bytes((#[trigger] snap[i]).0),
                    key@,
                ) by {
                    lemma_sorted_before(snap, i, mid as int, key@);
                }
                lo = mid + 1;
            },
            KeyOrder::Greater => {
                assert forall|i: int| mid <= i < snap.len() implies bytes_lt(
                    key@,
                    key_bytes((#[trigger] snap[i]).0),
                ) by {
                    lemma_sorted_after(snap, mid as int, i, key@);
                }
                hi = mid;
            },
            KeyOrder::Equal => {
                proof {
                    assert forall|i: int| 0 <= i < mid implies bytes_lt(
                        key_bytes((#[trigger] snap[i]).0),
                        key@,
                    ) by {
                        assert(crate::order::key_lt(snap[i].0, snap[mid as int].0));
                    }
                    assert forall|i: int| mid < i < snap.len() implies bytes_lt(
                        key@,
                        key_bytes((#[trigger] snap[i]).0),
                    ) by {
                        assert(crate::order::key_lt(snap[mid as int].0, snap[i].0));
                    }
                }
                return (true, mid);
            },
        }
    }
    proof {
        if has_key_bytes(snap, key@) {
            let i = choose|i: int| 0 <= i < snap.len() && key_bytes((#[trigger] snap[i]).0) == key@;
            lemma_bytes_lt_irreflexive(key@);
            if i < lo {
                assert(bytes_lt(key_bytes(snap[i].0), key@));
            } else {
                assert(bytes_lt(key@, key_bytes(snap[i].0)));
            }
        }
    }
    (false, lo)
}

/// The store. Its keys are kept in increasing order, and beside them the
/// keys that were deleted, each with the greatest version it had.
#[derive(Debug, PartialEq, Eq)]
pub struct State {
    slots: Vec<Slot>,
    graves: Vec<Slot>,
}

impl View for State {
    type V = Contents;

    /// What the store holds: for each key its version and value.
    open spec fn view(&self) -> Contents {
        map_of(self.snapshot())
    }
}

impl State {
    /// The records of the store in the order of their keys.
    pub closed spec fn snapshot(&self) -> Seq<Triple> {
        triples(self.slots@)
    }

    /// The deleted keys in their order, each with the greatest version it
    /// had.
    pub closed spec fn graves(&self) -> Seq<Triple> {
        triples(self.graves@)
    }

    /// The versions that deleted keys had.
    pub open spec fn retired(&self) -> Retired {
        versions_of(map_of(self.graves()))
    }

    /// Every store is well formed: its snapshot and its list of deleted
    /// keys are sorted, so no key occurs twice in either.
    #[verifier::type_invariant]
    pub open spec fn wf(&self) -> bool {
        sorted(self.snapshot()) && sorted(self.graves())
    }

    /// An empty store, in which no key was ever deleted.
    pub fn new() -> (s: State)
        ensures
            s@ == Map::<Seq<char>, (u64, Seq<u8>)>::empty(),
            s.snapshot() == Seq::<Triple>::empty(),
            s.retired() == Map::<Seq<char>, u64>::empty(),
    {
        let s = State { slots: Vec::new(), graves: Vec::new() };
        assert(s.snapshot() =~= Seq::<Triple>::empty());
        assert(s.graves() =~= Seq::<Triple>::empty());
        assert(s.retired() =~= Map::<Seq<char>, u64>::empty());
        s
    }

    /// Number of keys in the store.
    pub fn len(&self) -> (n: usize)
        ensures
            n == self.snapshot().len(),
            n == self@.dom().len(),
    {
        proof {
            use_type_invariant(self);
            crate::model::lemma_map_of_len(self.snapshot());
        }
        self.slots.len()
    }

    /// Looks for the key with the bytes `key`: whether it is there, and the
    /// place where it is or where it would go.
    pub(crate) fn find(&self, key: &[u8]) -> (r: (bool, usize))
        ensures
            r.1 <= self.snapshot().len(),
            r.0 ==> r.1 < self.snapshot().len() && key_bytes(self.snapshot()[r.1 as int].0) == key@,
            r.0 <==> has_key_bytes(self.snapshot(), key@),
            forall|i: int| 0 <= i < r.1 ==> bytes_lt(key_bytes((#[trigger] self.snapshot()[i]).0), key@),
            forall|i: int|
                r.1 <= i < self.snapshot().len() && !(r.0 && i == r.1) ==> bytes_lt(
                    key@,
                    key_bytes((#[trigger] self.snapshot()[i]).0),
                ),
    {
        proof {
            use_type_invariant(self);
        }
        search(&self.slots, key)
    }

    /// The version and value under `key`, or `NotFound`.
    pub fn get(&self, key: &str) -> (r: Result<&StateEntry, StateError>)
        ensures
            found(r) == get_result(self@, key@),
    {
        proof {
            use_type_invariant(self);
            lemma_map_of_keys(self.snapshot());
            lemma_has_key_bytes(self.snapshot(), key@);
        }
        let (found, pos) = self.find(key.as_bytes());
        if found {
            proof {
                lemma_key_bytes_injective(self.snapshot()[pos as int].0, key@);
                lemma_map_of_entry(self.snapshot(), pos as int);
            }
            Ok(&self.slots[pos].entry)
        } else {
            Err(StateError::NotFound)
        }
    }

    /// Whether the store holds `key`.
    pub fn contains_key(&self, key: &str) -> (r: bool)
        ensures
            r == self@.contains_key(key@),
    {
        proof {
            use_type_invariant(self);
            lemma_map_of_keys(self.snapshot());
            lemma_has_key_bytes(self.snapshot(), key@);
        }
        let (found, _pos) = self.find(key.as_bytes());
        found
    }
}

impl State {
    /// Puts a new record at its place.
    pub(crate) fn insert_at(&mut self, pos: usize, key: String, version: u64, value: Vec<u8>)
        requires
            pos <= old(self).snapshot().len(),
            forall|i: int| 0 <= i < pos ==> bytes_lt(key_bytes((#[trigger] old(self).snapshot()[i]).0), key_bytes(key@)),
            forall|i: int|
                pos <= i < old(self).snapshot().len() ==> bytes_lt(
                    key_bytes(key@),
                    key_bytes((#[trigger] old(self).snapshot()[i]).0),
                ),
        ensures
            final(self).snapshot() == old(self).snapshot().insert(pos as int, (key@, version, value@)),
            !old(self)@.contains_key(key@),
            final(self)@ == old(self)@.insert(key@, (version, value@)),
            final(self).graves() == old(self).graves(),
    {
        proof {
            use_type_invariant(&*self);
            lemma_insert(self.snapshot(), pos as int, (key@, version, value@));
        }
        let ghost before = self.snapshot();
        let ghost triple = (key@, version, value@);
        let mut slots: Vec<Slot> = Vec::new();
        std::mem::swap(&mut slots, &mut self.slots);
        slots.insert(pos, Slot { key, entry: StateEntry { version, value } });
        assert(triples(slots@) =~= before.insert(pos as int, triple));
        self.slots = slots;
    }

    /// Replaces version and value of the record at `pos`.
    pub(crate) fn replace_at(&mut self, pos: usize, version: u64, value: Vec<u8>)
        requires
            pos < old(self).snapshot().len(),
        ensures
            final(self).snapshot() == old(self).snapshot().update(
                pos as int,
                (old(self).snapshot()[pos as int].0, version, value@),
            ),
            old(self)@.contains_key(old(self).snapshot()[pos as int].0),
            final(self)@ == old(self)@.insert(old(self).snapshot()[pos as int].0, (version, value@)),
            final(self).graves() == old(self).graves(),
    {
        proof {
            use_type_invariant(&*self);
            lemma_update(self.snapshot(), pos as int, (self.snapshot()[pos as int].0, version, value@));
        }
        let ghost before = self.snapshot();
        let ghost triple = (self.snapshot()[pos as int].0, version, value@);
        let mut slots: Vec<Slot> = Vec::new();
        std::mem::swap(&mut slots, &mut self.slots);
        slots[pos].entry = StateEntry { version, value };
        assert(triples(slots@) =~= before.update(pos as int, triple));
        self.slots = slots;
    }

    /// Takes the record at `pos` out.
    pub(crate) fn remove_at(&mut self, pos: usize)
        requires
            pos < old(self).snapshot().len(),
        ensures
            final(self).snapshot() == old(self).snapshot().remove(pos as int),
            final(self)@ == old(self)@.remove(old(self).snapshot()[pos as int].0),
            final(self).graves() == old(self).graves(),
    {
        proof {
            use_type_invariant(&*self);
            lemma_remove(self.snapshot(), pos as int);
        }
        let ghost before = self.snapshot();
        let mut slots: Vec<Slot> = Vec::new();
        std::mem::swap(&mut slots, &mut self.slots);
        let _gone = slots.remove(pos);
        assert(triples(slots@) =~= before.remove(pos as int));
        self.slots = slots;
    }

    /// Remembers that `key` was deleted at `version`.
    fn retire(&mut self, key: &str, version: u64)
        ensures
            final(self).snapshot() == old(self).snapshot(),
            final(self).retired() == retire_one(old(self).retired(), key@, version),
    {
        proof {
            use_type_invariant(&*self);
            lemma_map_of_keys(self.graves());
            lemma_has_key_bytes(self.graves(), key@);
        }
        let ghost before = self.graves();
        let (found, pos) = search(&self.graves, key.as_bytes());
        let mut graves: Vec<Slot> = Vec::new();
        std::mem::swap(&mut graves, &mut self.graves);
        if found {
            proof {
                lemma_key_bytes_injective(before[pos as int].0, key@);
                lemma_map_of_entry(before, pos as int);
            }
            if graves[pos].entry.version < version {
                proof {
                    lemma_update(before, pos as int, (key@, version, Seq::<u8>::empty()));
                }
                graves[pos].entry = StateEntry { version, value: Vec::new() };
                assert(triples(graves@) =~= before.update(pos as int, (key@, version, Seq::<u8>::empty())));
            } else {
                assert(triples(graves@) =~= before);
            }
        } else {
            proof {
                lemma_insert(before, pos as int, (key@, version, Seq::<u8>::empty()));
            }
            graves.insert(
                pos,
                Slot { key: String::from_str(key), entry: StateEntry { version, value: Vec::new() } },
            );
            assert(triples(graves@) =~= before.insert(pos as int, (key@, version, Seq::<u8>::empty())));
        }
        assert(versions_of(map_of(triples(graves@))) =~= retire_one(
            versions_of(map_of(before)),
            key@,
            version,
        ));
        self.graves = graves;
    }

    /// The greatest version that `key` had when it was deleted, if it ever
    /// was.
    pub fn retired_version(&self, key: &str) -> (r: Option<u64>)
        ensures
            r == if self.retired().contains_key(key@) {
                Some(self.retired()[key@])
            } else {
                None
            },
    {
        proof {
            use_type_invariant(self);
            lemma_map_of_keys(self.graves());
            lemma_has_key_bytes(self.graves(), key@);
        }
        let (found, pos) = search(&self.graves, key.as_bytes());
        if found {
            proof {
                lemma_key_bytes_injective(self.graves()[pos as int].0, key@);
                lemma_map_of_entry(self.graves(), pos as int);
            }
            Some(self.graves[pos].entry.version)
        } else {
            None
        }
    }

    /// The version at which `key` would be created, or `VersionOverflow`
    /// where its versions are used up.
    pub(crate) fn next_version(&self, key: &str) -> (r: Result<u64, StateError>)
        ensures
            match r {
                Ok(v) => v == first_version(self.retired(), key@),
                Err(e) => e == StateError::VersionOverflow && first_version(self.retired(), key@)
                    > u64::MAX,
            },
    {
        match self.retired_version(key) {
            Some(v) => {
                if v == u64::MAX {
                    Err(StateError::VersionOverflow)
                } else {
                    Ok(v + 1)
                }
            },
            None => Ok(0),
        }
    }

    /// Creates `key`: at version 0, or, where the key was deleted before,
    /// one version beyond the greatest it had. A key that is already
    /// there, or whose versions are used up, is refused and the store
    /// stays as it is.
    pub fn insert_only(&mut self, key: &str, value: Vec<u8>) -> (r: Result<(), StateError>)
        ensures
            outcome(r, final(self)@) == insert_result(old(self)@, old(self).retired(), key@, value@),
            final(self).retired() == old(self).retired(),
            r is Err ==> *final(self) == *old(self),
    {
        proof {
            use_type_invariant(&*self);
            lemma_map_of_keys(self.snapshot());
            lemma_has_key_bytes(self.snapshot(), key@);
        }
        let (found, pos) = self.find(key.as_bytes());
        if found {
            return Err(StateError::AlreadyExists);
        }
        match self.next_version(key) {
            Ok(version) => {
                self.insert_at(pos, String::from_str(key), version, value);
                Ok(())
            },
            Err(e) => Err(e),
        }
    }
}

impl State {
    /// The key of the record at `pos`.
    pub(crate) fn key_at(&self, pos: usize) -> (k: &String)
        requires
            pos < self.snapshot().len(),
        ensures
            k@ == self.snapshot()[pos as int].0,
    {
        &self.slots[pos].key
    }

    /// Version and value of the record at `pos`.
    pub(crate) fn entry_at(&self, pos: usize) -> (e: &StateEntry)
        requires
            pos < self.snapshot().len(),
        ensures
            e@ == (self.snapshot()[pos as int].1, self.snapshot()[pos as int].2),
    {
        &self.slots[pos].entry
    }

    /// Replaces the value under `key` and counts its version up by one. A
    /// key that is not there, or whose version cannot count further, is
    /// refused and the store stays as it is.
    pub fn update(&mut self, key: &str, value: Vec<u8>) -> (r: Result<(), StateError>)
        ensures
            outcome(r, final(self)@) == update_result(old(self)@, key@, value@),
            final(self).retired() == old(self).retired(),
            r is Err ==> *final(self) == *old(self),
    {
        proof {
            use_type_invariant(&*self);
            lemma_map_of_keys(self.snapshot());
            lemma_has_key_bytes(self.snapshot(), key@);
        }
        let (found, pos) = self.find(key.as_bytes());
        if !found {
            return Err(StateError::NotFound);
        }
        proof {
            lemma_key_bytes_injective(self.snapshot()[pos as int].0, key@);
            lemma_map_of_entry(self.snapshot(), pos as int);
        }
        let version = self.slots[pos].entry.version;
        if version == u64::MAX {
            return Err(StateError::VersionOverflow);
        }
        self.replace_at(pos, version + 1, value);
        Ok(())
    }

    /// Creates `key` as [`State::insert_only`] does if it is not there, and
    /// updates it as [`State::update`] does if it is.
    pub fn upsert(&mut self, key: &str, value: Vec<u8>) -> (r: Result<(), StateError>)
        ensures
            outcome(r, final(self)@) == upsert_result(old(self)@, old(self).retired(), key@, value@),
            final(self).retired() == old(self).retired(),
            r is Err ==> *final(self) == *old(self),
    {
        proof {
            use_type_invariant(&*self);
            lemma_map_of_keys(self.snapshot());
            lemma_has_key_bytes(self.snapshot(), key@);
        }
        let (found, pos) = self.find(key.as_bytes());
        if !found {
            return match self.next_version(key) {
                Ok(version) => {
                    self.insert_at(pos, String::from_str(key), version, value);
                    Ok(())
                },
                Err(e) => Err(e),
            };
        }
        proof {
            lemma_key_bytes_injective(self.snapshot()[pos as int].0, key@);
            lemma_map_of_entry(self.snapshot(), pos as int);
        }
        let version = self.slots[pos].entry.version;
        if version == u64::MAX {
            return Err(StateError::VersionOverflow);
        }
        self.replace_at(pos, version + 1, value);
        Ok(())
    }

    /// Removes `key` and remembers the version it had, so that the key is
    /// never created again at a version it has had. Removing a key that is
    /// not there changes nothing.
    pub fn delete(&mut self, key: &str)
        ensures
            final(self)@ == old(self)@.remove(key@),
            final(self).retired() == retired_after_delete(old(self)@, old(self).retired(), key@),
    {
        proof {
            use_type_invariant(&*self);
            lemma_map_of_keys(self.snapshot());
            lemma_has_key_bytes(self.snapshot(), key@);
        }
        let (found, pos) = self.find(key.as_bytes());
        if found {
            proof {
                lemma_key_bytes_injective(self.snapshot()[pos as int].0, key@);
                lemma_map_of_entry(self.snapshot(), pos as int);
            }
            let version = self.slots[pos].entry.version;
            self.remove_at(pos);
            self.retire(key, version);
        } else {
            assert(self@.remove(key@) =~= self@);
        }
    }

    /// Removes every key, as if each were deleted: the versions they had
    /// are remembered.
    pub fn clear(&mut self)
        ensures
            final(self)@ == Map::<Seq<char>, (u64, Seq<u8>)>::empty(),
            final(self).snapshot() == Seq::<Triple>::empty(),
            final(self).retired() == retired_after_clear(old(self)@, old(self).retired()),
    {
        let ghost target = retired_after_clear(self@, self.retired());
        assert(retired_after_clear(self@, self.retired()) == target);
        let mut n = self.slots.len();
        while n > 0
            invariant
                n == self.snapshot().len(),
                retired_after_clear(self@, self.retired()) == target,
            decreases n,
        {
            proof {
                use_type_invariant(&*self);
                lemma_map_of_entry(self.snapshot(), n - 1);
            }
            let ghost before = self@;
            let ghost before_retired = self.retired();
            let ghost key = self.snapshot()[n - 1].0;
            let version = self.slots[n - 1].entry.version;
            let name = self.slots[n - 1].key.clone();
            self.remove_at(n - 1);
            self.retire(name.as_str(), version);
            assert(retired_after_clear(self@, self.retired()) =~= retired_after_clear(
                before,
                before_retired,
            ));
            n -= 1;
        }
        assert(self.snapshot() =~= Seq::<Triple>::empty());
        assert(retired_after_clear(self@, self.retired()) =~= self.retired());
    }
}

impl State {
    /// The records whose key begins with `prefix`, in the order of their
    /// keys.
    pub fn list_by_prefix(&self, prefix: &str) -> (r: Vec<(String, StateEntry)>)
        ensures
            pairs_view(r@) == self.snapshot().filter(has_prefix(prefix@)),
    {
        let mut res: Vec<(String, StateEntry)> = Vec::new();
        let n = self.slots.len();
        let wanted = prefix.as_bytes();
        let ghost snap = self.snapshot();
        proof {
            reveal(Seq::filter);
            assert(snap.take(0) =~= Seq::<Triple>::empty());
            assert(pairs_view(res@) =~= snap.take(0).filter(has_prefix(prefix@)));
        }
        let mut i: usize = 0;
        while i < n
            invariant
                i <= n,
                n == self.slots@.len(),
                snap == self.snapshot(),
                wanted@ == key_bytes(prefix@),
                pairs_view(res@) == snap.take(i as int).filter(has_prefix(prefix@)),
            decreases n - i,
        {
            let slot = &self.slots[i];
            proof {
                lemma_prefix_bytes(prefix@, slot.key@);
                snap.take(i as int).lemma_filter_push(snap[i as int], has_prefix(prefix@));
                assert(snap.take(i + 1) =~= snap.take(i as int).push(snap[i as int]));
            }
            if starts_with(slot.key.as_str().as_bytes(), wanted) {
                let ghost before = res@;
                res.push(
                    (
                        slot.key.clone(),
                        StateEntry { version: slot.entry.version, value: copy_bytes(&slot.entry.value) },
                    ),
                );
                assert(pairs_view(res@) =~= pairs_view(before).push(snap[i as int]));
            }
            i += 1;
        }
        assert(snap.take(n as int) =~= snap);
        res
    }
}

/// A copy of a list of slots.
fn copy_slots(from: &Vec<Slot>) -> (slots: Vec<Slot>)
    ensures
        triples(slots@) == triples(from@),
{
    let mut slots: Vec<Slot> = Vec::new();
    let n = from.len();
    let mut i: usize = 0;
    while i < n
        invariant
            i <= n,
            n == from@.len(),
            triples(slots@) == triples(from@).take(i as int),
        decreases n - i,
    {
        let slot = &from[i];
        let ghost before = slots@;
        slots.push(
            Slot {
                key: slot.key.clone(),
                entry: StateEntry { version: slot.entry.version, value: copy_bytes(&slot.entry.value) },
            },
        );
        assert(triples(slots@) =~= triples(before).push(triples(from@)[i as int]));
        assert(triples(from@).take(i + 1) =~= triples(from@).take(i as int).push(triples(from@)[i as int]));
        i += 1;
    }
    assert(triples(from@).take(n as int) =~= triples(from@));
    slots
}

impl Clone for State {
    /// A store that holds what this one holds and remembers what this one
    /// remembers.
    fn clone(&self) -> (r: State)
        ensures
            r.snapshot() == self.snapshot(),
            r@ == self@,
            r.graves() == self.graves(),
            r.retired() == self.retired(),
    {
        proof {
            use_type_invariant(self);
        }
        State { slots: copy_slots(&self.slots), graves: copy_slots(&self.graves) }
    }
}

/// What a store holds after `key` was written with each of `values` in
/// turn: created at the version `first` with the first of them, updated
/// with each of the others.
pub open spec fn written(m: Contents, key: Seq<char>, first: u64, values: Seq<Seq<u8>>) -> Contents
    decreases values.len(),
{
    if values.len() == 0 {
        m
    } else {
        let before = written(m, key, first, values.drop_last());
        if before.contains_key(key) {
            updated(before, key, values.last())
        } else {
            created(before, key, first, values.last())
        }
    }
}

/// A key that was created and then updated holds the value written last,
/// and its version is its first version and the number of updates. No
/// write fails on the way, and no other key changes.
pub proof fn lemma_version_counts_writes(
    m: Contents,
    retired: Retired,
    key: Seq<char>,
    values: Seq<Seq<u8>>,
)
    requires
        !m.contains_key(key),
        0 < values.len(),
        first_version(retired, key) + values.len() - 1 <= u64::MAX,
    ensures
        written(m, key, first_version(retired, key) as u64, values).contains_key(key),
        written(m, key, first_version(retired, key) as u64, values)[key] == (
            (first_version(retired, key) + values.len() - 1) as u64,
            values.last(),
        ),
        written(m, key, first_version(retired, key) as u64, values).remove(key) == m,
        values.len() == 1 ==> insert_result(m, retired, key, values.last()) == Ok::<Contents, StateError>(
            written(m, key, first_version(retired, key) as u64, values),
        ),
        values.len() > 1 ==> update_result(
            written(m, key, first_version(retired, key) as u64, values.drop_last()),
            key,
            values.last(),
        ) == Ok::<Contents, StateError>(written(m, key, first_version(retired, key) as u64, values)),
    decreases values.len(),
{
    let first = first_version(retired, key) as u64;
    if values.len() == 1 {
        assert(values.drop_last().len() == 0);
        assert(written(m, key, first, values.drop_last()) == m);
        assert(written(m, key, first, values).remove(key) =~= m);
    } else {
        lemma_version_counts_writes(m, retired, key, values.drop_last());
        let before = written(m, key, first, values.drop_last());
        assert(written(m, key, first, values).remove(key) =~= before.remove(key));
    }
}

/// A key that is deleted and created again never gets a version that it
/// has had: its new version is beyond the one it was deleted at and beyond
/// every version remembered for it.
pub proof fn lemma_version_not_reused(m: Contents, retired: Retired, key: Seq<char>, value: Seq<u8>)
    requires
        m.contains_key(key),
    ensures
        retired_after_delete(m, retired, key).contains_key(key),
        retired_after_delete(m, retired, key)[key] >= m[key].0,
        retired.contains_key(key) ==> retired_after_delete(m, retired, key)[key] >= retired[key],
        insert_result(m.remove(key), retired_after_delete(m, retired, key), key, value) matches Ok(again)
            ==> again[key].0 > m[key].0 && (retired.contains_key(key) ==> again[key].0 > retired[key]),
        upsert_result(m.remove(key), retired_after_delete(m, retired, key), key, value)
            == insert_result(m.remove(key), retired_after_delete(m, retired, key), key, value),
{
}

} // verus!
