//! Reconciling a store with a peer's snapshot: `merge` pulls what the peer
//! has newer, `diff` lists what the peer has newer without taking it.

use vstd::prelude::*;
use crate::model::{Contents, Triple, map_of, sorted, has_key};
use crate::model::{lemma_map_of_entry, lemma_map_of_keys, lemma_sorted_distinct, lemma_has_key_bytes};
use crate::order::lemma_key_bytes_injective;
use crate::state::{State, StateError, copy_bytes};
use crate::text::{decimal, decimal_text, lossy, lossy_text};
use vstd::string::StringExecFns;

verus! {

/// One change that a merge made: key, version before (none for a new key),
/// version after.
pub type MergeRecord = (Seq<char>, Option<u64>, u64);

/// One difference that `diff` found: key, what the base holds under it
/// (none if it has no such key), what the other side holds.
pub type DiffRecord = (Seq<char>, Option<(u64, Seq<u8>)>, (u64, Seq<u8>));

/// A record found by [`State::diff`].
#[derive(Debug, PartialEq, Eq)]
pub struct StateChange {
    pub key: String,
    pub old: Option<(u64, Vec<u8>)>,
    pub new: (u64, Vec<u8>),
}

impl View for StateChange {
    type V = DiffRecord;

    open spec fn view(&self) -> DiffRecord {
        (
            self.key@,
            match self.old {
                Some(o) => Some((o.0, o.1@)),
                None => None,
            },
            (self.new.0, self.new.1@),
        )
    }
}

/// The record `t` of a peer is news to `local`: its key is not there, or
/// is there with a smaller version.
pub open spec fn is_news(local: Contents, t: Triple) -> bool {
    !local.contains_key(t.0) || local[t.0].0 < t.1
}

/// [`is_news`] as a predicate on records.
pub open spec fn news_for(local: Contents) -> spec_fn(Triple) -> bool {
    |t: Triple| is_news(local, t)
}

/// What `local` holds after it took from `incoming` every key that is new
/// to it or newer there.
pub open spec fn merged(local: Contents, incoming: Contents) -> Contents {
    Map::new(
        |k: Seq<char>| local.contains_key(k) || incoming.contains_key(k),
        |k: Seq<char>|
            if incoming.contains_key(k) && (!local.contains_key(k) || local[k].0 < incoming[k].0) {
                incoming[k]
            } else {
                local[k]
            },
    )
}

/// The version that `local` holds under `k`, if any.
pub open spec fn version_in(local: Contents, k: Seq<char>) -> Option<u64> {
    if local.contains_key(k) {
        Some(local[k].0)
    } else {
        None
    }
}

/// What `local` holds under `k`, if anything.
pub open spec fn entry_in(local: Contents, k: Seq<char>) -> Option<(u64, Seq<u8>)> {
    if local.contains_key(k) {
        Some(local[k])
    } else {
        None
    }
}

/// How a merge reports the record `t` that it took.
pub open spec fn merge_record(local: Contents) -> spec_fn(Triple) -> MergeRecord {
    |t: Triple| (t.0, version_in(local, t.0), t.1)
}

/// How `diff` reports the record `t`.
pub open spec fn diff_record(local: Contents) -> spec_fn(Triple) -> DiffRecord {
    |t: Triple| (t.0, entry_in(local, t.0), (t.1, t.2))
}

/// The changes that merging the snapshot `incoming` into `local` makes, in
/// the order of the snapshot.
pub open spec fn merge_changes(local: Contents, incoming: Seq<Triple>) -> Seq<MergeRecord> {
    incoming.filter(news_for(local)).map_values(merge_record(local))
}

/// The records of the snapshot `other` that `base` lacks or holds in an
/// older version, in the order of the snapshot.
pub open spec fn diff_changes(base: Contents, other: Seq<Triple>) -> Seq<DiffRecord> {
    other.filter(news_for(base)).map_values(diff_record(base))
}

/// The model of a list of merge records.
pub open spec fn merge_records_view(v: Seq<(String, Option<u64>, u64)>) -> Seq<MergeRecord> {
    v.map_values(|c: (String, Option<u64>, u64)| (c.0@, c.1, c.2))
}

/// The model of a list of differences.
pub open spec fn state_changes_view(v: Seq<StateChange>) -> Seq<DiffRecord> {
    v.map_values(|c: StateChange| c@)
}

/// Nothing passes a filter that every element fails.
proof fn lemma_filter_none(s: Seq<Triple>, pred: spec_fn(Triple) -> bool)
    requires
        forall|i: int| 0 <= i < s.len() ==> !pred(#[trigger] s[i]),
    ensures
        s.filter(pred) == Seq::<Triple>::empty(),
    decreases s.len(),
{
    reveal(Seq::filter);
    if s.len() > 0 {
        lemma_filter_none(s.drop_last(), pred);
    }
}

/// What one more record of the peer's snapshot adds to a merge and to a
/// diff.
proof fn lemma_step(start: Contents, inc: Seq<Triple>, i: int)
    requires
        sorted(inc),
        0 <= i < inc.len(),
    ensures
        !map_of(inc.take(i)).contains_key(inc[i].0),
        merged(start, map_of(inc.take(i))).contains_key(inc[i].0) == start.contains_key(inc[i].0),
        start.contains_key(inc[i].0) ==> merged(start, map_of(inc.take(i)))[inc[i].0] == start[inc[i].0],
        merged(start, map_of(inc.take(i + 1))) == if is_news(start, inc[i]) {
            merged(start, map_of(inc.take(i))).insert(inc[i].0, (inc[i].1, inc[i].2))
        } else {
            merged(start, map_of(inc.take(i)))
        },
        merge_changes(start, inc.take(i + 1)) == if is_news(start, inc[i]) {
            merge_changes(start, inc.take(i)).push((inc[i].0, version_in(start, inc[i].0), inc[i].1))
        } else {
            merge_changes(start, inc.take(i))
        },
        diff_changes(start, inc.take(i + 1)) == if is_news(start, inc[i]) {
            diff_changes(start, inc.take(i)).push(
                (inc[i].0, entry_in(start, inc[i].0), (inc[i].1, inc[i].2)),
            )
        } else {
            diff_changes(start, inc.take(i))
        },
{
    let t = inc[i];
    let before = inc.take(i);
    let after = inc.take(i + 1);
    assert(after =~= before.push(t));
    assert(after.drop_last() =~= before);
    assert(map_of(after) == map_of(before).insert(t.0, (t.1, t.2)));
    lemma_map_of_keys(before);
    lemma_sorted_distinct(inc);
    if has_key(before, t.0) {
        let j = choose|j: int| 0 <= j < before.len() && (#[trigger] before[j]).0 == t.0;
        assert(inc[j].0 == inc[i].0);
    }
    let cur = merged(start, map_of(before));
    let next = merged(start, map_of(after));
    if is_news(start, t) {
        assert(next =~= cur.insert(t.0, (t.1, t.2)));
    } else {
        assert(next =~= cur);
    }
    before.lemma_filter_push(t, news_for(start));
    let kept = before.filter(news_for(start));
    if is_news(start, t) {
        assert(kept.push(t).map_values(merge_record(start)) =~= kept.map_values(
            merge_record(start),
        ).push((t.0, version_in(start, t.0), t.1)));
        assert(kept.push(t).map_values(diff_record(start)) =~= kept.map_values(
            diff_record(start),
        ).push((t.0, entry_in(start, t.0), (t.1, t.2))));
    }
}

impl State {
    /// Takes from `other` every key that this store lacks or holds in an
    /// older version, with the version and value that `other` has. Keys
    /// that are equal or newer here stay as they are. Returns the changes
    /// made, in the order of `other`'s keys. What this store remembers of
    /// deleted keys stays as it is: a key that was deleted here and that
    /// `other` still holds comes back as `other` holds it.
    pub fn merge(&mut self, other: &State) -> (r: Result<Vec<(String, Option<u64>, u64)>, StateError>)
        ensures
            r is Ok,
            final(self)@ == merged(old(self)@, other@),
            final(self).retired() == old(self).retired(),
            merge_records_view(r->Ok_0@) == merge_changes(old(self)@, other.snapshot()),
            forall|k: Seq<char>| #[trigger]
                old(self)@.contains_key(k) ==> final(self)@.contains_key(k) && final(self)@[k].0 >= old(self)@[k].0,
    {
        let mut res: Vec<(String, Option<u64>, u64)> = Vec::new();
        let n = other.len();
        let ghost start = self@;
        let ghost remembered = self.retired();
        let ghost inc = other.snapshot();
        proof {
            use_type_invariant(other);
            assert(inc.take(0) =~= Seq::<Triple>::empty());
            assert(self@ =~= merged(start, map_of(inc.take(0))));
            reveal(Seq::filter);
            assert(merge_records_view(res@) =~= merge_changes(start, inc.take(0)));
        }
        let mut i: usize = 0;
        while i < n
            invariant
                i <= n,
                n == inc.len(),
                inc == other.snapshot(),
                sorted(inc),
                self@ == merged(start, map_of(inc.take(i as int))),
                self.retired() == remembered,
                merge_records_view(res@) == merge_changes(start, inc.take(i as int)),
            decreases n - i,
        {
            let key = other.key_at(i);
            let entry = other.entry_at(i);
            proof {
                lemma_step(start, inc, i as int);
                use_type_invariant(&*self);
                lemma_map_of_keys(self.snapshot());
                lemma_has_key_bytes(self.snapshot(), key@);
            }
            let ghost before = res@;
            let (found, pos) = self.find(key.as_str().as_bytes());
            if !found {
                res.push((key.clone(), None, entry.version));
                self.insert_at(pos, key.clone(), entry.version, copy_bytes(&entry.value));
                assert(merge_records_view(res@) =~= merge_records_view(before).push(
                    (key@, None, entry.version),
                ));
            } else {
                proof {
                    lemma_key_bytes_injective(self.snapshot()[pos as int].0, key@);
                    lemma_map_of_entry(self.snapshot(), pos as int);
                }
                let current = self.entry_at(pos).version;
                if current < entry.version {
                    res.push((key.clone(), Some(current), entry.version));
                    self.replace_at(pos, entry.version, copy_bytes(&entry.value));
                    assert(merge_records_view(res@) =~= merge_records_view(before).push(
                        (key@, Some(current), entry.version),
                    ));
                }
            }
            i += 1;
        }
        proof {
            assert(inc.take(n as int) =~= inc);
        }
        Ok(res)
    }

    /// Lists the records of `other` that this store lacks or holds in an
    /// older version, each with what this store holds under the key, in
    /// the order of `other`'s keys. Keys that only this store has are not
    /// listed.
    pub fn diff(&self, other: &State) -> (r: Result<Vec<StateChange>, StateError>)
        ensures
            r is Ok,
            state_changes_view(r->Ok_0@) == diff_changes(self@, other.snapshot()),
    {
        let mut res: Vec<StateChange> = Vec::new();
        let n = other.len();
        let ghost start = self@;
        let ghost inc = other.snapshot();
        proof {
            use_type_invariant(other);
            use_type_invariant(self);
            assert(inc.take(0) =~= Seq::<Triple>::empty());
            reveal(Seq::filter);
            assert(state_changes_view(res@) =~= diff_changes(start, inc.take(0)));
        }
        let mut i: usize = 0;
        while i < n
            invariant
                i <= n,
                n == inc.len(),
                inc == other.snapshot(),
                sorted(inc),
                sorted(self.snapshot()),
                start == self@,
                state_changes_view(res@) == diff_changes(start, inc.take(i as int)),
            decreases n - i,
        {
            let key = other.key_at(i);
            let entry = other.entry_at(i);
            proof {
                lemma_step(start, inc, i as int);
                lemma_map_of_keys(self.snapshot());
                lemma_has_key_bytes(self.snapshot(), key@);
            }
            let ghost before = res@;
            let (found, pos) = self.find(key.as_str().as_bytes());
            if !found {
                let change = StateChange {
                    key: key.clone(),
                    old: None,
                    new: (entry.version, copy_bytes(&entry.value)),
                };
                res.push(change);
                assert(state_changes_view(res@) =~= state_changes_view(before).push(
                    (key@, None, (entry.version, entry.value@)),
                ));
            } else {
                proof {
                    lemma_key_bytes_injective(self.snapshot()[pos as int].0, key@);
                    lemma_map_of_entry(self.snapshot(), pos as int);
                }
                let current = self.entry_at(pos);
                if current.version < entry.version {
                    let change = StateChange {
                        key: key.clone(),
                        old: Some((current.version, copy_bytes(&current.value))),
                        new: (entry.version, copy_bytes(&entry.value)),
                    };
                    res.push(change);
                    assert(state_changes_view(res@) =~= state_changes_view(before).push(
                        (key@, Some((current.version, current.value@)), (entry.version, entry.value@)),
                    ));
                }
            }
            i += 1;
        }
        proof {
            assert(inc.take(n as int) =~= inc);
        }
        Ok(res)
    }
}

/// The record `t` of a peer is stale for `local`: its key is there with a
/// greater version.
pub open spec fn is_stale(local: Contents, t: Triple) -> bool {
    local.contains_key(t.0) && local[t.0].0 > t.1
}

/// [`is_stale`] as a predicate on records.
pub open spec fn stale_for(local: Contents) -> spec_fn(Triple) -> bool {
    |t: Triple| is_stale(local, t)
}

/// How a stale record is reported: key, the version held, the version
/// that came.
pub open spec fn stale_record(local: Contents) -> spec_fn(Triple) -> (Seq<char>, u64, u64) {
    |t: Triple| (t.0, local[t.0].0, t.1)
}

/// The records of the snapshot `incoming` that are stale for `local`, in
/// the order of the snapshot.
pub open spec fn stale_records(local: Contents, incoming: Seq<Triple>) -> Seq<(Seq<char>, u64, u64)> {
    incoming.filter(stale_for(local)).map_values(stale_record(local))
}

/// The model of a list of stale records.
pub open spec fn stale_view(v: Seq<(String, u64, u64)>) -> Seq<(Seq<char>, u64, u64)> {
    v.map_values(|c: (String, u64, u64)| (c.0@, c.1, c.2))
}

impl State {
    /// Lists the records of `other` that a merge would pass over as
    /// outdated: the keys that this store holds at a greater version, each
    /// with the version held here and the version that `other` has, in the
    /// order of `other`'s keys.
    pub fn stale(&self, other: &State) -> (r: Vec<(String, u64, u64)>)
        ensures
            stale_view(r@) == stale_records(self@, other.snapshot()),
    {
        let mut res: Vec<(String, u64, u64)> = Vec::new();
        let n = other.len();
        let ghost start = self@;
        let ghost inc = other.snapshot();
        proof {
            use_type_invariant(self);
            assert(inc.take(0) =~= Seq::<Triple>::empty());
            reveal(Seq::filter);
            assert(stale_view(res@) =~= stale_records(start, inc.take(0)));
        }
        let mut i: usize = 0;
        while i < n
            invariant
                i <= n,
                n == inc.len(),
                inc == other.snapshot(),
                sorted(self.snapshot()),
                start == self@,
                stale_view(res@) == stale_records(start, inc.take(i as int)),
            decreases n - i,
        {
            let key = other.key_at(i);
            let entry = other.entry_at(i);
            proof {
                lemma_map_of_keys(self.snapshot());
                lemma_has_key_bytes(self.snapshot(), key@);
                inc.take(i as int).lemma_filter_push(inc[i as int], stale_for(start));
                assert(inc.take(i + 1) =~= inc.take(i as int).push(inc[i as int]));
            }
            let ghost before = res@;
            let ghost kept = inc.take(i as int).filter(stale_for(start));
            let (found, pos) = self.find(key.as_str().as_bytes());
            if found {
                proof {
                    lemma_key_bytes_injective(self.snapshot()[pos as int].0, key@);
                    lemma_map_of_entry(self.snapshot(), pos as int);
                }
                let held = self.entry_at(pos).version;
                if held > entry.version {
                    res.push((key.clone(), held, entry.version));
                    assert(stale_view(res@) =~= stale_view(before).push((key@, held, entry.version)));
                    assert(kept.push(inc[i as int]).map_values(stale_record(start)) =~= kept.map_values(
                        stale_record(start),
                    ).push((key@, held, entry.version)));
                }
            }
            i += 1;
        }
        proof {
            assert(inc.take(n as int) =~= inc);
        }
        res
    }
}

/// A merge passes over every stale record: it is no news, so the merge
/// neither takes nor reports it, and the key keeps what it held.
pub proof fn lemma_stale_is_passed_over(local: State, incoming: State, i: int)
    requires
        local.wf(),
        incoming.wf(),
        0 <= i < incoming.snapshot().len(),
        is_stale(local@, incoming.snapshot()[i]),
    ensures
        !is_news(local@, incoming.snapshot()[i]),
        merged(local@, incoming@)[incoming.snapshot()[i].0] == local@[incoming.snapshot()[i].0],
{
    lemma_map_of_entry(incoming.snapshot(), i);
}

/// Merging the same snapshot a second time leaves the store as the first
/// merge left it, and reports no change.
pub proof fn lemma_merge_idempotent(local: State, incoming: State)
    requires
        local.wf(),
        incoming.wf(),
    ensures
        merged(merged(local@, incoming@), incoming@) == merged(local@, incoming@),
        merge_changes(merged(local@, incoming@), incoming.snapshot()) == Seq::<MergeRecord>::empty(),
{
    let once = merged(local@, incoming@);
    let inc = incoming.snapshot();
    assert(merged(once, incoming@) =~= once);
    assert forall|i: int| 0 <= i < inc.len() implies !news_for(once)(#[trigger] inc[i]) by {
        lemma_map_of_entry(inc, i);
    }
    lemma_filter_none(inc, news_for(once));
    assert(merge_changes(once, inc) =~= Seq::<MergeRecord>::empty());
}

/// A merge never loses a key and never lowers a version.
pub proof fn lemma_merge_monotone(local: State, incoming: State, k: Seq<char>)
    requires
        local.wf(),
        incoming.wf(),
        local@.contains_key(k),
    ensures
        merged(local@, incoming@).contains_key(k),
        merged(local@, incoming@)[k].0 >= local@[k].0,
{
}

/// After a merge the peer's snapshot holds nothing that the store lacks
/// or holds in an older version: a diff against it is empty.
pub proof fn lemma_merge_closes_gap(local: State, incoming: State)
    requires
        local.wf(),
        incoming.wf(),
    ensures
        diff_changes(merged(local@, incoming@), incoming.snapshot()) == Seq::<DiffRecord>::empty(),
{
    let once = merged(local@, incoming@);
    let inc = incoming.snapshot();
    assert forall|i: int| 0 <= i < inc.len() implies !news_for(once)(#[trigger] inc[i]) by {
        lemma_map_of_entry(inc, i);
    }
    lemma_filter_none(inc, news_for(once));
    assert(diff_changes(once, inc) =~= Seq::<DiffRecord>::empty());
}

/// A store whose every key the peer also holds, newer or identical, holds
/// after the merge exactly what the peer holds.
pub proof fn lemma_merge_catches_up(local: State, incoming: State)
    requires
        local.wf(),
        incoming.wf(),
        forall|k: Seq<char>| #[trigger]
            local@.contains_key(k) ==> incoming@.contains_key(k) && (local@[k].0 < incoming@[k].0
                || local@[k] == incoming@[k]),
    ensures
        merged(local@, incoming@) == incoming@,
{
    assert(merged(local@, incoming@) =~= incoming@);
}

/// A snapshot in which every key is held here in the same or a newer
/// version is stale: merging it leaves the store as it is and reports no
/// change.
pub proof fn lemma_merge_stale(local: State, incoming: State)
    requires
        local.wf(),
        incoming.wf(),
        forall|k: Seq<char>| #[trigger]
            incoming@.contains_key(k) ==> local@.contains_key(k) && local@[k].0 >= incoming@[k].0,
    ensures
        merged(local@, incoming@) == local@,
        merge_changes(local@, incoming.snapshot()) == Seq::<MergeRecord>::empty(),
{
    let inc = incoming.snapshot();
    assert(merged(local@, incoming@) =~= local@);
    assert forall|i: int| 0 <= i < inc.len() implies !news_for(local@)(#[trigger] inc[i]) by {
        lemma_map_of_entry(inc, i);
    }
    lemma_filter_none(inc, news_for(local@));
    assert(merge_changes(local@, inc) =~= Seq::<MergeRecord>::empty());
}

/// A merge changes exactly the keys that a diff lists, and reports for
/// each the versions that the diff shows.
pub proof fn lemma_merge_reports_diff(local: State, incoming: State)
    requires
        local.wf(),
        incoming.wf(),
    ensures
        merge_changes(local@, incoming.snapshot()) == diff_changes(
            local@,
            incoming.snapshot(),
        ).map_values(
            |d: DiffRecord|
                (
                    d.0,
                    match d.1 {
                        Some(o) => Some(o.0),
                        None => None,
                    },
                    d.2.0,
                ),
        ),
{
    let kept = incoming.snapshot().filter(news_for(local@));
    assert(kept.map_values(merge_record(local@)) =~= kept.map_values(diff_record(local@)).map_values(
        |d: DiffRecord|
            (
                d.0,
                match d.1 {
                    Some(o) => Some(o.0),
                    None => None,
                },
                d.2.0,
            ),
    ));
}

/// How a difference reads: the key, then the versions and the values
/// that the base held and that the other side holds, `null` standing for
/// what the base did not have.
pub open spec fn change_text(c: DiffRecord) -> Seq<char> {
    "StateChange["@ + c.0 + "]: old_version="@ + (match c.1 {
        Some(o) => decimal_text(o.0 as nat),
        None => "null"@,
    }) + ", new_version="@ + decimal_text(c.2.0 as nat) + ", old_value="@ + (match c.1 {
        Some(o) => lossy_text(o.1),
        None => "null"@,
    }) + ", new_value="@ + lossy_text(c.2.1)
}

impl StateChange {
    /// The difference as a line of text.
    pub fn to_string(&self) -> (text: String)
        ensures
            text@ == change_text(self@),
    {
        let mut text = String::from_str("StateChange[");
        text.append(self.key.as_str());
        text.append("]: old_version=");
        match &self.old {
            Some(o) => {
                text.append(decimal(o.0).as_str());
            },
            None => {
                text.append("null");
            },
        }
        text.append(", new_version=");
        text.append(decimal(self.new.0).as_str());
        text.append(", old_value=");
        match &self.old {
            Some(o) => {
                text.append(lossy(o.1.as_slice()).as_str());
            },
            None => {
                text.append("null");
            },
        }
        text.append(", new_value=");
        text.append(lossy(self.new.1.as_slice()).as_str());
        text
    }
}

/// Two stores that never hold different values under the same key and
/// version hold the same after each has merged the other: once the first
/// has merged the second, the second merging the first arrives at what the
/// first holds.
pub proof fn lemma_merge_converges(first: State, second: State)
    requires
        first.wf(),
        second.wf(),
        forall|k: Seq<char>| #[trigger]
            first@.contains_key(k) && second@.contains_key(k) && first@[k].0 == second@[k].0
                ==> first@[k] == second@[k],
    ensures
        merged(second@, merged(first@, second@)) == merged(first@, second@),
{
    assert(merged(second@, merged(first@, second@)) =~= merged(first@, second@));
}

} // verus!
