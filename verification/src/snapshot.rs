//! Carrying a store over the wire: a snapshot is the list of its records,
//! and a store can be built again from such a list.

use vstd::prelude::*;
use crate::model::{Triple, has_key, map_of, sorted};
use crate::model::{
    lemma_has_key_bytes, lemma_map_of_entry, lemma_map_of_keys, lemma_map_of_len, lemma_remove,
};
use crate::order::{key_bytes, key_lt, lemma_bytes_lt_asymmetric};
use crate::order::lemma_key_bytes_injective;
use crate::state::{State, copy_bytes};

verus! {

/// One record of a snapshot as it travels.
#[derive(Clone, Debug, PartialEq, Eq)]
pub struct SignerStateEntry {
    pub version: u64,
    pub key: String,
    pub value: Vec<u8>,
}

impl View for SignerStateEntry {
    type V = Triple;

    open spec fn view(&self) -> Triple {
        (self.key@, self.version, self.value@)
    }
}

/// The model of a list of records.
pub open spec fn entries_view(v: Seq<SignerStateEntry>) -> Seq<Triple> {
    v.map_values(|e: SignerStateEntry| e@)
}

/// Two sorted snapshots that stand for the same map are the same snapshot.
pub proof fn lemma_snapshot_unique(a: Seq<Triple>, b: Seq<Triple>)
    requires
        sorted(a),
        sorted(b),
        map_of(a) == map_of(b),
    ensures
        a == b,
    decreases a.len(),
{
    lemma_map_of_len(a);
    lemma_map_of_len(b);
    if a.len() == 0 {
        assert(a =~= b);
    } else {
        let n = a.len() - 1;
        lemma_map_of_keys(a);
        lemma_map_of_keys(b);
        lemma_map_of_entry(a, n);
        lemma_map_of_entry(b, n);
        // the last key of `a` is somewhere in `b`, and the last key of `b` in `a`
        assert(has_key(b, a[n].0));
        let j = choose|j: int| 0 <= j < b.len() && (#[trigger] b[j]).0 == a[n].0;
        assert(has_key(a, b[n].0));
        let i = choose|i: int| 0 <= i < a.len() && (#[trigger] a[i]).0 == b[n].0;
        if j < n {
            assert(key_lt(b[j].0, b[n].0));
            if i < n {
                assert(key_lt(a[i].0, a[n].0));
                lemma_bytes_lt_asymmetric(key_bytes(b[j].0), key_bytes(b[n].0));
            }
        }
        assert(a[n].0 == b[n].0);
        assert(a[n] == b[n]);
        lemma_remove(a, n);
        lemma_remove(b, n);
        assert(a.remove(n) =~= a.drop_last());
        assert(b.remove(n) =~= b.drop_last());
        lemma_snapshot_unique(a.drop_last(), b.drop_last());
        assert(a =~= a.drop_last().push(a[n]));
        assert(b =~= b.drop_last().push(b[n]));
    }
}

impl State {
    /// The records of the store, in the order of their keys.
    pub fn export(&self) -> (r: Vec<SignerStateEntry>)
        ensures
            entries_view(r@) == self.snapshot(),
    {
        let mut res: Vec<SignerStateEntry> = Vec::new();
        let n = self.len();
        let mut i: usize = 0;
        while i < n
            invariant
                i <= n,
                n == self.snapshot().len(),
                entries_view(res@) == self.snapshot().take(i as int),
            decreases n - i,
        {
            let key = self.key_at(i);
            let entry = self.entry_at(i);
            let ghost before = res@;
            res.push(
                SignerStateEntry { version: entry.version, key: key.clone(), value: copy_bytes(&entry.value) },
            );
            assert(entries_view(res@) =~= entries_view(before).push(self.snapshot()[i as int]));
            assert(self.snapshot().take(i + 1) =~= self.snapshot().take(i as int).push(
                self.snapshot()[i as int],
            ));
            i += 1;
        }
        assert(self.snapshot().take(n as int) =~= self.snapshot());
        res
    }

    /// A new store seeded from a list of records, in which no key was ever
    /// deleted. Where a key occurs more than once, the last record with it
    /// stands.
    pub fn import(entries: &Vec<SignerStateEntry>) -> (s: State)
        ensures
            s@ == map_of(entries_view(entries@)),
            s.retired() == Map::<Seq<char>, u64>::empty(),
    {
        let mut s = State::new();
        let ghost inc = entries_view(entries@);
        let n = entries.len();
        let mut i: usize = 0;
        assert(inc.take(0) =~= Seq::<Triple>::empty());
        while i < n
            invariant
                i <= n,
                n == entries@.len(),
                inc == entries_view(entries@),
                s@ == map_of(inc.take(i as int)),
                s.retired() == Map::<Seq<char>, u64>::empty(),
            decreases n - i,
        {
            let e = &entries[i];
            proof {
                use_type_invariant(&s);
                lemma_map_of_keys(s.snapshot());
                lemma_has_key_bytes(s.snapshot(), e.key@);
                assert(inc.take(i + 1).drop_last() =~= inc.take(i as int));
            }
            let (found, pos) = s.find(e.key.as_str().as_bytes());
            if found {
                proof {
                    lemma_key_bytes_injective(s.snapshot()[pos as int].0, e.key@);
                }
                s.replace_at(pos, e.version, copy_bytes(&e.value));
            } else {
                s.insert_at(pos, e.key.clone(), e.version, copy_bytes(&e.value));
            }
            i += 1;
        }
        assert(inc.take(n as int) =~= inc);
        s
    }
}

/// A store built from the exported records of `s` holds what `s` holds,
/// key for key, version for version and value for value, in the same
/// order.
pub proof fn lemma_export_import_round_trip(s: State, back: State)
    requires
        s.wf(),
        back.wf(),
        back@ == map_of(s.snapshot()),
    ensures
        back@ == s@,
        back.snapshot() == s.snapshot(),
{
    lemma_snapshot_unique(back.snapshot(), s.snapshot());
}

impl From<Vec<SignerStateEntry>> for State {
    /// The store seeded from `v`, as [`State::import`] builds it.
    fn from(v: Vec<SignerStateEntry>) -> (s: State)
        ensures
            s@ == map_of(entries_view(v@)),
            s.retired() == Map::<Seq<char>, u64>::empty(),
    {
        State::import(&v)
    }
}

impl vstd::std_specs::convert::FromSpecImpl<Vec<SignerStateEntry>> for State {
    /// The conversion is described by what the new store holds, not by a
    /// value of the store.
    open spec fn obeys_from_spec() -> bool {
        false
    }

    open spec fn from_spec(v: Vec<SignerStateEntry>) -> State {
        choose|s: State| s.wf() && s@ == map_of(entries_view(v@))
    }
}

impl From<State> for Vec<SignerStateEntry> {
    /// The records of `s`, as [`State::export`] lists them.
    fn from(s: State) -> (r: Vec<SignerStateEntry>)
        ensures
            entries_view(r@) == s.snapshot(),
    {
        s.export()
    }
}

impl vstd::std_specs::convert::FromSpecImpl<State> for Vec<SignerStateEntry> {
    /// The conversion is described by the model of the list, not by a
    /// value of the list.
    open spec fn obeys_from_spec() -> bool {
        false
    }

    open spec fn from_spec(s: State) -> Vec<SignerStateEntry> {
        choose|r: Vec<SignerStateEntry>| entries_view(r@) == s.snapshot()
    }
}

} // verus!
